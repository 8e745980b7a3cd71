use themisto_tools::error::StatsError;
use themisto_tools::line::{parse_line, ParsedLine};

fn parsed(line: &str) -> Result<(u64, Vec<u64>), StatsError> {
    let mut read_id = 0;
    let mut colors = Vec::new();
    parse_line(line, &mut read_id, &mut colors)?;
    Ok((read_id, colors))
}

/// What the standard library makes of the same line, token by token.
fn parsed_by_std(line: &str) -> Option<(u64, Vec<u64>)> {
    let mut numbers = Vec::new();
    for token in line.split(' ') {
        numbers.push(token.parse::<u64>().ok()?);
    }
    let read_id = numbers.remove(0);
    Some((read_id, numbers))
}

#[test]
fn read_id_and_colors_in_order() {
    assert_eq!(parsed("12 7 3 40"), Ok((12, vec![7, 3, 40])));
}

#[test]
fn line_without_colors_is_valid() {
    assert_eq!(parsed("7"), Ok((7, vec![])));
}

#[test]
fn duplicate_colors_are_kept() {
    assert_eq!(parsed("3 9 9 2 9"), Ok((3, vec![9, 9, 2, 9])));
}

#[test]
fn buffer_is_cleared_before_use() {
    let mut read_id = 99;
    let mut colors = vec![1, 2, 3, 4];
    assert_eq!(parse_line("5 8", &mut read_id, &mut colors), Ok(()));
    assert_eq!(read_id, 5);
    assert_eq!(colors, vec![8]);
    assert_eq!(parse_line("6", &mut read_id, &mut colors), Ok(()));
    assert_eq!(read_id, 6);
    assert_eq!(colors, Vec::<u64>::new());
}

#[test]
fn failure_leaves_read_id_and_empties_buffer() {
    let mut read_id = 41;
    let mut colors = vec![1, 2, 3];
    assert_eq!(
        parse_line("9 10 11 x", &mut read_id, &mut colors),
        Err(StatsError::MalformedLine)
    );
    assert_eq!(read_id, 41);
    assert_eq!(colors, Vec::<u64>::new());
}

#[test]
fn empty_line_has_no_read_id() {
    assert_eq!(parsed(""), Err(StatsError::MalformedLine));
}

#[test]
fn read_id_must_be_a_number() {
    assert_eq!(parsed("abc 1 2"), Err(StatsError::MalformedLine));
    assert_eq!(parsed("x"), Err(StatsError::MalformedLine));
}

#[test]
fn color_must_be_a_number() {
    assert_eq!(parsed("2 abc"), Err(StatsError::MalformedLine));
    assert_eq!(parsed("2 1 2 3x"), Err(StatsError::MalformedLine));
    assert_eq!(parsed("2 1.5"), Err(StatsError::MalformedLine));
}

#[test]
fn tokens_are_not_trimmed() {
    assert_eq!(parsed("0 5 "), Err(StatsError::MalformedLine));
    assert_eq!(parsed(" 0 5"), Err(StatsError::MalformedLine));
    assert_eq!(parsed("0  5"), Err(StatsError::MalformedLine));
    assert_eq!(parsed(" "), Err(StatsError::MalformedLine));
    assert_eq!(parsed("0\t5"), Err(StatsError::MalformedLine));
    assert_eq!(parsed("0 5\n"), Err(StatsError::MalformedLine));
    assert_eq!(parsed("0 5\r"), Err(StatsError::MalformedLine));
}

#[test]
fn negative_numbers_are_rejected() {
    assert_eq!(parsed("-1"), Err(StatsError::MalformedLine));
    assert_eq!(parsed("1 -0"), Err(StatsError::MalformedLine));
}

#[test]
fn one_leading_plus_is_a_sign() {
    assert_eq!(parsed("+4 +5 6"), Ok((4, vec![5, 6])));
    assert_eq!(parsed("+"), Err(StatsError::MalformedLine));
    assert_eq!(parsed("1 +"), Err(StatsError::MalformedLine));
    assert_eq!(parsed("++1"), Err(StatsError::MalformedLine));
    assert_eq!(parsed("1+"), Err(StatsError::MalformedLine));
    assert_eq!(parsed("1+2"), Err(StatsError::MalformedLine));
}

#[test]
fn leading_zeros_are_allowed() {
    assert_eq!(parsed("007 000"), Ok((7, vec![0])));
    assert_eq!(
        parsed("0 000000000000000000000000000000018446744073709551615"),
        Ok((0, vec![u64::MAX]))
    );
}

#[test]
fn largest_value_fits() {
    assert_eq!(
        parsed("18446744073709551615 18446744073709551615"),
        Ok((u64::MAX, vec![u64::MAX]))
    );
}

#[test]
fn values_beyond_64_bits_are_rejected() {
    assert_eq!(parsed("18446744073709551616"), Err(StatsError::MalformedLine));
    assert_eq!(parsed("0 18446744073709551616"), Err(StatsError::MalformedLine));
    assert_eq!(parsed("0 18446744073709551620"), Err(StatsError::MalformedLine));
    assert_eq!(parsed("0 99999999999999999999"), Err(StatsError::MalformedLine));
    assert_eq!(
        parsed("0 184467440737095516150"),
        Err(StatsError::MalformedLine)
    );
}

#[test]
fn only_ascii_digits_count() {
    assert_eq!(parsed("\u{0663}"), Err(StatsError::MalformedLine));
    assert_eq!(parsed("1 \u{ff15}"), Err(StatsError::MalformedLine));
    assert_eq!(parsed("1 2\u{00e9}"), Err(StatsError::MalformedLine));
    assert_eq!(parsed("1\u{00a0}2"), Err(StatsError::MalformedLine));
}

#[test]
fn agrees_with_std_on_single_tokens() {
    let tokens = [
        "0", "1", "9", "10", "42", "007", "+0", "+17", "+", "-", "-3", "", "a", "1a", "a1", "1 ",
        "0x10", "1e3", "1_000", "٣", "18446744073709551615", "18446744073709551616",
        "+18446744073709551615", "28446744073709551615", "000000000000000000000001", "/", ":",
    ];
    for token in tokens {
        let by_std = token.parse::<u64>().ok();
        let here = if token.contains(' ') { None } else { parsed(token).ok().map(|p| p.0) };
        let expected = if token.contains(' ') { None } else { by_std };
        assert_eq!(here, expected, "token {:?}", token);
    }
}

#[test]
fn agrees_with_std_on_whole_lines() {
    let lines = [
        "0 5",
        "0 5 6",
        "1",
        "2 abc",
        "",
        " ",
        "3  4",
        "3 4 ",
        "10 20 30 40 50 60 70 80 90 100",
        "+1 +2",
        "1 -2",
        "18446744073709551615 0",
        "0 18446744073709551616",
        "5 5 5 5",
    ];
    for line in lines {
        assert_eq!(parsed(line).ok(), parsed_by_std(line), "line {:?}", line);
    }
}

#[test]
fn parsed_line_holds_the_same_values() {
    let read = ParsedLine::parse("15 4 8").unwrap();
    assert_eq!(read.read_id, 15);
    assert_eq!(read.colors, vec![4, 8]);
    assert_eq!(read, ParsedLine { read_id: 15, colors: vec![4, 8] });
    let lone = ParsedLine::parse("15").unwrap();
    assert_eq!(lone, ParsedLine { read_id: 15, colors: vec![] });
}

#[test]
fn parsed_line_rejects_what_parse_line_rejects() {
    assert_eq!(ParsedLine::parse("15 4 x"), Err(StatsError::MalformedLine));
    assert_eq!(ParsedLine::parse(""), Err(StatsError::MalformedLine));
}
