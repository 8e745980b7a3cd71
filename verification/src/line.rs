//! One line of a pseudoalignment file.
//!
//! A line is `read_id color_1 ... color_k` with `k >= 0`: tokens separated by
//! single spaces, each token a non-negative decimal integer that fits in
//! 64 bits, written in digits with at most a `+` before them. Nothing is
//! trimmed, so two spaces in a row enclose an empty token, which is not a
//! number, and a line terminator left at the end spoils the last token.

use vstd::prelude::*;
use vstd::std_specs::iter::IteratorSpec;
use crate::error::StatsError;

verus! {

/// Whether `c` is one of the ten decimal digits `0` to `9`.
pub open spec fn is_digit(c: char) -> bool {
    '0' <= c && c <= '9'
}

/// The number that the digit `c` stands for.
pub open spec fn digit_value(c: char) -> nat
    recommends
        is_digit(c),
{
    (c as int - '0' as int) as nat
}

/// Whether every character of `s` is a decimal digit.
pub open spec fn all_digits(s: Seq<char>) -> bool {
    forall|i: int| 0 <= i < s.len() ==> is_digit(#[trigger] s[i])
}

/// The number written by `digits` in base ten, most significant digit first.
/// The empty sequence writes 0.
pub open spec fn decimal_value(digits: Seq<char>) -> nat
    decreases digits.len(),
{
    if digits.len() == 0 {
        0
    } else {
        10 * decimal_value(digits.drop_last()) + digit_value(digits.last())
    }
}

/// A token without its sign: a number may be written with one leading `+`.
pub open spec fn unsigned_part(token: Seq<char>) -> Seq<char> {
    if token.len() > 0 && token[0] == '+' {
        token.drop_first()
    } else {
        token
    }
}

/// The number that `token` writes, if it writes one: an optional `+`, then at
/// least one decimal digit and nothing else, with a value of at most
/// `u64::MAX`. Leading zeros are allowed.
pub open spec fn token_value(token: Seq<char>) -> Option<u64> {
    let digits = unsigned_part(token);
    if digits.len() > 0 && all_digits(digits) && decimal_value(digits) <= u64::MAX {
        Some(decimal_value(digits) as u64)
    } else {
        None
    }
}

/// The tokens of `line`: what stands before, between and after its spaces,
/// in order. A line with `n` spaces has `n + 1` tokens, some of which may be
/// empty; the empty line has one empty token.
pub open spec fn tokens(line: Seq<char>) -> Seq<Seq<char>>
    decreases line.len(),
{
    if line.len() == 0 {
        seq![Seq::<char>::empty()]
    } else {
        let before = tokens(line.drop_last());
        if line.last() == ' ' {
            before.push(Seq::<char>::empty())
        } else {
            before.drop_last().push(before.last().push(line.last()))
        }
    }
}

/// The tokens written one after another with a single space between
/// neighbours.
pub open spec fn join_with_spaces(parts: Seq<Seq<char>>) -> Seq<char>
    decreases parts.len(),
{
    if parts.len() == 0 {
        Seq::<char>::empty()
    } else if parts.len() == 1 {
        parts[0]
    } else {
        join_with_spaces(parts.drop_last()).push(' ') + parts.last()
    }
}

/// Whether no token in `parts` holds a space.
pub open spec fn space_free(parts: Seq<Seq<char>>) -> bool {
    forall|k: int, j: int|
        0 <= k < parts.len() && 0 <= j < parts[k].len() ==> #[trigger] parts[k][j] != ' '
}

/// Whether `line` is a valid record: every token writes a number.
pub open spec fn well_formed(line: Seq<char>) -> bool {
    forall|k: int| 0 <= k < tokens(line).len() ==> (#[trigger] token_value(tokens(line)[k])) is Some
}

/// The read identifier of a well-formed line: the value of its first token.
pub open spec fn read_id_of(line: Seq<char>) -> u64
    recommends
        well_formed(line),
{
    token_value(tokens(line)[0])->0
}

/// The color identifiers of a well-formed line: the values of the tokens
/// after the first, in the order of the line, duplicates kept.
pub open spec fn colors_of(line: Seq<char>) -> Seq<u64>
    recommends
        well_formed(line),
{
    Seq::new((tokens(line).len() - 1) as nat, |k: int| token_value(tokens(line)[k + 1])->0)
}

/// Splitting cuts exactly at the spaces: the tokens hold no space, and
/// joining them with single spaces gives the line back.
pub proof fn lemma_tokens_rejoin(line: Seq<char>)
    ensures
        tokens(line).len() >= 1,
        space_free(tokens(line)),
        join_with_spaces(tokens(line)) == line,
    decreases line.len(),
{
    if line.len() > 0 {
        let shorter = line.drop_last();
        let before = tokens(shorter);
        lemma_tokens_rejoin(shorter);
        assert(shorter.push(line.last()) =~= line);
        if line.last() == ' ' {
            assert(before.push(Seq::<char>::empty()).drop_last() =~= before);
        } else if before.len() > 1 {
            let after = before.drop_last().push(before.last().push(line.last()));
            assert(after.drop_last() =~= before.drop_last());
        }
    }
}

/// Characters without a space only lengthen the last token.
proof fn lemma_tokens_of_append(line: Seq<char>, tail: Seq<char>)
    requires
        forall|j: int| 0 <= j < tail.len() ==> tail[j] != ' ',
    ensures
        tokens(line).len() >= 1,
        tokens(line + tail) == tokens(line).drop_last().push(tokens(line).last() + tail),
    decreases tail.len(),
{
    lemma_tokens_rejoin(line);
    let before = tokens(line);
    if tail.len() == 0 {
        assert(line + tail =~= line);
        assert(before.drop_last().push(before.last() + tail) =~= before);
    } else {
        let init = tail.drop_last();
        lemma_tokens_of_append(line, init);
        assert((line + tail).drop_last() =~= line + init);
        assert((before.last() + init).push(tail.last()) =~= before.last() + tail);
    }
}

/// Splitting undoes joining: tokens without spaces, written with single
/// spaces between them, are the tokens of what was written. With
/// `lemma_tokens_rejoin` this says that `tokens` is the one way to cut a line
/// at its spaces.
pub proof fn lemma_tokens_of_join(parts: Seq<Seq<char>>)
    requires
        parts.len() >= 1,
        space_free(parts),
    ensures
        tokens(join_with_spaces(parts)) == parts,
    decreases parts.len(),
{
    let none = Seq::<char>::empty();
    let last = parts.last();
    if parts.len() == 1 {
        lemma_tokens_of_append(none, last);
        assert(none + last =~= last);
        assert(tokens(none).drop_last().push(last) =~= parts);
    } else {
        let init = parts.drop_last();
        lemma_tokens_of_join(init);
        let head = join_with_spaces(init).push(' ');
        assert(head.drop_last() =~= join_with_spaces(init));
        lemma_tokens_of_append(head, last);
        assert(init.push(none).drop_last().push(none + last) =~= parts);
    }
}

/// The tokens of a prefix of a line are the first tokens of the line, except
/// that the last of them may go on: it is a prefix of the line's token at
/// that place.
proof fn lemma_tokens_of_prefix(line: Seq<char>, n: int)
    requires
        0 <= n <= line.len(),
    ensures
        1 <= tokens(line.take(n)).len() <= tokens(line).len(),
        forall|k: int|
            0 <= k < tokens(line.take(n)).len() - 1 ==> tokens(line)[k] == #[trigger] tokens(
                line.take(n),
            )[k],
        tokens(line.take(n)).last().is_prefix_of(tokens(line)[tokens(line.take(n)).len() - 1]),
    decreases line.len(),
{
    lemma_tokens_rejoin(line.take(n));
    if n == line.len() {
        assert(line.take(n) =~= line);
    } else {
        let shorter = line.drop_last();
        assert(shorter.take(n) =~= line.take(n));
        lemma_tokens_of_prefix(shorter, n);
    }
}

/// Appending characters never lowers the value that a digit string writes.
proof fn lemma_decimal_value_of_prefix(prefix: Seq<char>, digits: Seq<char>)
    requires
        prefix.is_prefix_of(digits),
    ensures
        decimal_value(prefix) <= decimal_value(digits),
    decreases digits.len(),
{
    if prefix.len() == digits.len() {
        assert(prefix =~= digits);
    } else {
        lemma_decimal_value_of_prefix(prefix, digits.drop_last());
    }
}

/// Whether a token that starts with `begun` can still write a number:
/// after the sign `begun` holds digits only, and their value fits.
spec fn promising(begun: Seq<char>) -> bool {
    all_digits(unsigned_part(begun)) && decimal_value(unsigned_part(begun)) <= u64::MAX
}

/// A token writes no number once its beginning is no longer promising.
proof fn lemma_unpromising_prefix(begun: Seq<char>, token: Seq<char>)
    requires
        begun.is_prefix_of(token),
        !promising(begun),
    ensures
        token_value(token) is None,
{
    let b = unsigned_part(begun);
    let t = unsigned_part(token);
    assert(b.is_prefix_of(t));
    if all_digits(t) {
        assert forall|i: int| 0 <= i < b.len() implies is_digit(#[trigger] b[i]) by {
            assert(b[i] == t[i]);
        }
        lemma_decimal_value_of_prefix(b, t);
    }
}

/// What a token writes once one more character has been read.
proof fn lemma_unsigned_part_push(begun: Seq<char>, c: char)
    requires
        begun.len() > 0 || c != '+',
    ensures
        unsigned_part(begun.push(c)) == unsigned_part(begun).push(c),
        decimal_value(unsigned_part(begun).push(c)) == 10 * decimal_value(unsigned_part(begun))
            + digit_value(c),
{
    let u = unsigned_part(begun);
    assert(unsigned_part(begun.push(c)) =~= u.push(c));
    assert(u.push(c).drop_last() =~= u);
}

/// What a scan holds after it has read `prefix` of a line and found no
/// fault: the tokens that are complete all write numbers, the first of them
/// is in `id` and the others are in `colors`; of the token that is begun,
/// `has_sign` and `has_digit` say what it holds and `value` what it writes
/// so far.
spec fn scanned(
    prefix: Seq<char>,
    have_id: bool,
    id: u64,
    colors: Seq<u64>,
    has_sign: bool,
    has_digit: bool,
    value: u64,
) -> bool {
    let seen = tokens(prefix);
    let begun = seen.last();
    &&& seen.len() >= 1
    &&& forall|k: int| 0 <= k < seen.len() - 1 ==> (#[trigger] token_value(seen[k])) is Some
    &&& have_id == (seen.len() > 1)
    &&& have_id ==> id == token_value(seen[0])->0
    &&& colors.len() == if have_id {
        seen.len() - 2
    } else {
        0
    }
    &&& forall|k: int| 0 <= k < colors.len() ==> #[trigger] colors[k] == token_value(seen[k + 1])->0
    &&& has_sign == (begun.len() > 0 && begun[0] == '+')
    &&& has_digit == (unsigned_part(begun).len() > 0)
    &&& all_digits(unsigned_part(begun))
    &&& value == decimal_value(unsigned_part(begun))
}

/// Reads one line into the caller's buffers.
///
/// The buffer `color_buf` is emptied first, so nothing of an earlier line
/// stays in it. On success `read_id` holds the line's read identifier and
/// `color_buf` its color identifiers in order. A line that is not well formed
/// gives `MalformedLine`; then `read_id` is untouched and `color_buf` is left
/// empty.
pub fn parse_line(line: &str, read_id: &mut u64, color_buf: &mut Vec<u64>) -> (res: Result<
    (),
    StatsError,
>)
    ensures
        res is Ok <==> well_formed(line@),
        res is Ok ==> *final(read_id) == read_id_of(line@) && final(color_buf)@ == colors_of(
            line@,
        ),
        res is Err ==> res == Err::<(), StatsError>(StatsError::MalformedLine) && *final(read_id)
            == *old(read_id) && final(color_buf)@ == Seq::<u64>::empty(),
{
    color_buf.clear();
    let mut chars = line.chars();
    // The tokens that are complete: the read identifier, then the colors.
    let mut id: u64 = 0;
    let mut have_id = false;
    // The token that is begun.
    let mut value: u64 = 0;
    let mut has_sign = false;
    let mut has_digit = false;
    let ghost mut n: int = 0;
    proof {
        assert(line@.take(0) =~= Seq::<char>::empty());
    }
    loop
        invariant
            0 <= n <= line@.len(),
            chars.remaining() == line@.skip(n),
            chars.obeys_prophetic_iter_laws(),
            *read_id == *old(read_id),
            scanned(line@.take(n), have_id, id, color_buf@, has_sign, has_digit, value),
        decreases line@.len() - n,
    {
        let ghost seen = tokens(line@.take(n));
        let ghost begun = seen.last();
        match chars.next() {
            None => {
                proof {
                    assert(line@.take(n) =~= line@);
                }
                if !has_digit {
                    color_buf.clear();
                    return Err(StatsError::MalformedLine);
                }
                if have_id {
                    color_buf.push(value);
                } else {
                    id = value;
                }
                *read_id = id;
                return Ok(());
            },
            Some(c) => {
                proof {
                    assert(line@.take(n + 1).drop_last() =~= line@.take(n));
                    lemma_tokens_of_prefix(line@, n + 1);
                    n = n + 1;
                }
                let ghost now = tokens(line@.take(n));
                if c == ' ' {
                    proof {
                        assert(now == seen.push(Seq::<char>::empty()));
                    }
                    if !has_digit {
                        proof {
                            assert(now[now.len() - 2] == begun);
                        }
                        color_buf.clear();
                        return Err(StatsError::MalformedLine);
                    }
                    if have_id {
                        color_buf.push(value);
                    } else {
                        id = value;
                        have_id = true;
                    }
                    value = 0;
                    has_sign = false;
                    has_digit = false;
                } else if c == '+' && !has_sign && !has_digit {
                    proof {
                        assert(unsigned_part(begun.push(c)) =~= Seq::<char>::empty());
                    }
                    has_sign = true;
                } else {
                    proof {
                        lemma_unsigned_part_push(begun, c);
                    }
                    let grown = if '0' <= c && c <= '9' {
                        let digit: u64 = (c as u32 - '0' as u32) as u64;
                        match value.checked_mul(10) {
                            Some(tenfold) => tenfold.checked_add(digit),
                            None => None,
                        }
                    } else {
                        None
                    };
                    match grown {
                        Some(v) => {
                            value = v;
                            has_digit = true;
                        },
                        None => {
                            proof {
                                assert(!is_digit(c) ==> !is_digit(
                                    unsigned_part(begun).push(c).last(),
                                ));
                                lemma_unpromising_prefix(
                                    begun.push(c),
                                    tokens(line@)[now.len() - 1],
                                );
                            }
                            color_buf.clear();
                            return Err(StatsError::MalformedLine);
                        },
                    }
                }
            },
        }
    }
}

/// One read as its line describes it.
#[derive(Clone, Debug, PartialEq, Eq)]
pub struct ParsedLine {
    /// The read's identifier.
    pub read_id: u64,
    /// The identifiers of the colors that the read aligned to, in the order
    /// of the line; one may occur more than once.
    pub colors: Vec<u64>,
}

impl ParsedLine {
    /// Reads one line into a value of its own. A line that is not well formed
    /// gives `MalformedLine`.
    pub fn parse(line: &str) -> (res: Result<ParsedLine, StatsError>)
        ensures
            match res {
                Ok(read) => well_formed(line@) && read.read_id == read_id_of(line@)
                    && read.colors@ == colors_of(line@),
                Err(e) => !well_formed(line@) && e == StatsError::MalformedLine,
            },
    {
        let mut read_id: u64 = 0;
        let mut colors: Vec<u64> = Vec::new();
        match parse_line(line, &mut read_id, &mut colors) {
            Ok(()) => Ok(ParsedLine { read_id, colors }),
            Err(e) => Err(e),
        }
    }
}

} // verus!
