//! Running statistics over the reads of a pseudoalignment file.
//!
//! The statistics are a reduction over the reads seen so far, each read
//! given by its list of color identifiers: how many reads there are, how many
//! of them have at least one color, how many exactly one, and the largest
//! color identifier that occurs.

use vstd::prelude::*;
use crate::error::StatsError;
use crate::line::{colors_of, parse_line, well_formed};

verus! {

/// The statistics as numbers without bounds.
pub struct Tally {
    /// Number of reads.
    pub n_reads: nat,
    /// Number of reads with at least one color.
    pub n_positive_reads: nat,
    /// Number of reads with exactly one color.
    pub n_unique_positive_reads: nat,
    /// Largest color identifier seen, 0 if none was seen.
    pub max_color_id: nat,
}

/// Whether a read with these colors is positive: it has at least one color.
pub open spec fn is_positive(colors: Seq<u64>) -> bool {
    colors.len() > 0
}

/// Whether a read with these colors is unique positive: it has exactly one
/// color.
pub open spec fn is_unique_positive(colors: Seq<u64>) -> bool {
    colors.len() == 1
}

/// The largest element of `colors`, or 0 if there is none.
pub open spec fn largest(colors: Seq<u64>) -> nat
    decreases colors.len(),
{
    if colors.len() == 0 {
        0
    } else if colors.last() > largest(colors.drop_last()) {
        colors.last() as nat
    } else {
        largest(colors.drop_last())
    }
}

impl Tally {
    /// The statistics before any read.
    pub open spec fn zero() -> Tally {
        Tally { n_reads: 0, n_positive_reads: 0, n_unique_positive_reads: 0, max_color_id: 0 }
    }

    /// The statistics after one more read with the given colors.
    pub open spec fn step(self, colors: Seq<u64>) -> Tally {
        Tally {
            n_reads: self.n_reads + 1,
            n_positive_reads: if is_positive(colors) {
                self.n_positive_reads + 1
            } else {
                self.n_positive_reads
            },
            n_unique_positive_reads: if is_unique_positive(colors) {
                self.n_unique_positive_reads + 1
            } else {
                self.n_unique_positive_reads
            },
            max_color_id: if largest(colors) > self.max_color_id {
                largest(colors)
            } else {
                self.max_color_id
            },
        }
    }

    /// Whether the three counts stand in their order: no more unique positive
    /// reads than positive reads, no more positive reads than reads.
    pub open spec fn ordered(self) -> bool {
        self.n_unique_positive_reads <= self.n_positive_reads <= self.n_reads
    }
}

/// The statistics of a whole sequence of reads, each given by its colors.
pub open spec fn tally_of(reads: Seq<Seq<u64>>) -> Tally {
    Tally {
        n_reads: reads.len(),
        n_positive_reads: reads.filter(|colors: Seq<u64>| is_positive(colors)).len(),
        n_unique_positive_reads: reads.filter(|colors: Seq<u64>| is_unique_positive(colors)).len(),
        max_color_id: largest(reads.flatten()),
    }
}

/// `largest` is an upper bound of the colors, and one of them unless there
/// is none.
pub proof fn lemma_largest_is_maximum(colors: Seq<u64>)
    ensures
        forall|j: int| 0 <= j < colors.len() ==> #[trigger] colors[j] <= largest(colors),
        colors.len() == 0 ==> largest(colors) == 0,
        colors.len() > 0 ==> exists|j: int|
            0 <= j < colors.len() && #[trigger] colors[j] == largest(colors),
    decreases colors.len(),
{
    if colors.len() > 0 {
        let init = colors.drop_last();
        lemma_largest_is_maximum(init);
        assert forall|j: int| 0 <= j < colors.len() implies #[trigger] colors[j] <= largest(
            colors,
        ) by {
            if j < init.len() {
                assert(colors[j] == init[j]);
            }
        }
        if colors.last() > largest(init) || init.len() == 0 {
            assert(colors[colors.len() - 1] == largest(colors));
        } else {
            let j = choose|j: int| 0 <= j < init.len() && #[trigger] init[j] == largest(init);
            assert(colors[j] == largest(colors));
        }
    }
}

/// The largest of two lists together is the larger of their largest.
pub proof fn lemma_largest_of_concat(a: Seq<u64>, b: Seq<u64>)
    ensures
        largest(a + b) == if largest(b) > largest(a) {
            largest(b)
        } else {
            largest(a)
        },
    decreases b.len(),
{
    if b.len() == 0 {
        assert(a + b =~= a);
    } else {
        assert((a + b).drop_last() =~= a + b.drop_last());
        lemma_largest_of_concat(a, b.drop_last());
    }
}

/// The statistics are a fold over the reads: none gives zero, and one more
/// read changes them by one step.
pub proof fn lemma_tally_is_fold(reads: Seq<Seq<u64>>, colors: Seq<u64>)
    ensures
        tally_of(Seq::<Seq<u64>>::empty()) == Tally::zero(),
        tally_of(reads.push(colors)) == tally_of(reads).step(colors),
{
    let positive = |colors: Seq<u64>| is_positive(colors);
    let unique = |colors: Seq<u64>| is_unique_positive(colors);
    reveal(Seq::filter);
    reads.lemma_filter_len_push(positive, colors);
    reads.lemma_filter_len_push(unique, colors);
    reads.lemma_flatten_push(colors);
    lemma_largest_of_concat(reads.flatten(), colors);
}

/// The counts of any sequence of reads stand in their order.
pub proof fn lemma_counts_ordered(reads: Seq<Seq<u64>>)
    ensures
        tally_of(reads).ordered(),
    decreases reads.len(),
{
    if reads.len() == 0 {
        lemma_tally_is_fold(reads, Seq::<u64>::empty());
        assert(reads =~= Seq::<Seq<u64>>::empty());
    } else {
        lemma_counts_ordered(reads.drop_last());
        lemma_tally_is_fold(reads.drop_last(), reads.last());
        assert(reads.drop_last().push(reads.last()) =~= reads);
    }
}

/// Whether no read has a color.
pub open spec fn no_colors(reads: Seq<Seq<u64>>) -> bool {
    forall|i: int| 0 <= i < reads.len() ==> (#[trigger] reads[i]).len() == 0
}

/// The largest color identifier of the statistics is the maximum over all
/// colors of all reads: no color is larger, it is 0 where no read has a
/// color, and otherwise it is the color of some read.
pub proof fn lemma_max_color_is_maximum(reads: Seq<Seq<u64>>)
    ensures
        forall|i: int, j: int|
            0 <= i < reads.len() && 0 <= j < reads[i].len() ==> #[trigger] reads[i][j] <= tally_of(
                reads,
            ).max_color_id,
        no_colors(reads) ==> tally_of(reads).max_color_id == 0,
        !no_colors(reads) ==> exists|i: int, j: int|
            0 <= i < reads.len() && 0 <= j < reads[i].len() && #[trigger] reads[i][j] == tally_of(
                reads,
            ).max_color_id,
    decreases reads.len(),
{
    if reads.len() == 0 {
        lemma_tally_is_fold(reads, Seq::<u64>::empty());
        assert(reads =~= Seq::<Seq<u64>>::empty());
    } else {
        let init = reads.drop_last();
        let last = reads.last();
        lemma_max_color_is_maximum(init);
        lemma_tally_is_fold(init, last);
        lemma_largest_is_maximum(last);
        assert(init.push(last) =~= reads);
        let max = tally_of(reads).max_color_id;
        assert forall|i: int, j: int|
            0 <= i < reads.len() && 0 <= j < reads[i].len() implies #[trigger] reads[i][j]
            <= max by {
            if i < init.len() {
                assert(reads[i][j] == init[i][j]);
            }
        }
        if no_colors(reads) {
            assert(last.len() == 0);
            assert forall|i: int| 0 <= i < init.len() implies (#[trigger] init[i]).len() == 0 by {
                assert(reads[i].len() == 0);
            }
        } else if last.len() > 0 && max == largest(last) {
            let j = choose|j: int| 0 <= j < last.len() && #[trigger] last[j] == largest(last);
            assert(reads[reads.len() - 1][j] == max);
        } else {
            assert(!no_colors(init)) by {
                if no_colors(init) {
                    assert forall|i: int| 0 <= i < reads.len() implies (#[trigger] reads[i]).len()
                        == 0 by {
                        if i < init.len() {
                            assert(init[i].len() == 0);
                        }
                    }
                }
            }
            let (i, j) = choose|i: int, j: int|
                0 <= i < init.len() && 0 <= j < init[i].len() && #[trigger] init[i][j] == tally_of(
                    init,
                ).max_color_id;
            assert(reads[i][j] == max);
        }
    }
}

/// A share of the reads: `numerator` reads out of `denominator`, which is
/// not 0.
#[derive(Clone, Copy, Debug, PartialEq, Eq, Structural)]
pub struct Fraction {
    pub numerator: u64,
    pub denominator: u64,
}

/// The statistics of the reads seen so far.
///
/// A value is only ever made by `new` and changed by recording reads, so its
/// counts always stand in their order.
#[derive(Clone, Copy, Debug, PartialEq, Eq, Structural)]
pub struct RunningStats {
    n_reads: u64,
    n_positive_reads: u64,
    n_unique_positive_reads: u64,
    max_color_id: u64,
}

impl View for RunningStats {
    type V = Tally;

    closed spec fn view(&self) -> Tally {
        Tally {
            n_reads: self.n_reads as nat,
            n_positive_reads: self.n_positive_reads as nat,
            n_unique_positive_reads: self.n_unique_positive_reads as nat,
            max_color_id: self.max_color_id as nat,
        }
    }
}

impl RunningStats {
    #[verifier::type_invariant]
    spec fn counts_ordered(self) -> bool {
        self.n_unique_positive_reads <= self.n_positive_reads <= self.n_reads
    }

    /// The statistics before any read.
    pub fn new() -> (stats: Self)
        ensures
            stats@ == Tally::zero(),
    {
        RunningStats { n_reads: 0, n_positive_reads: 0, n_unique_positive_reads: 0, max_color_id: 0 }
    }

    /// Takes in one read with the given colors.
    pub fn record(&mut self, colors: &[u64])
        requires
            old(self)@.n_reads < u64::MAX,
        ensures
            final(self)@ == old(self)@.step(colors@),
            final(self)@.ordered(),
    {
        let before = *self;
        proof {
            use_type_invariant(&before);
        }
        let mut max = before.max_color_id;
        let mut j: usize = 0;
        while j < colors.len()
            invariant
                j <= colors.len(),
                max as nat == if largest(colors@.take(j as int)) > before.max_color_id {
                    largest(colors@.take(j as int))
                } else {
                    before.max_color_id as nat
                },
            decreases colors.len() - j,
        {
            proof {
                assert(colors@.take(j + 1).drop_last() =~= colors@.take(j as int));
            }
            if colors[j] > max {
                max = colors[j];
            }
            j += 1;
        }
        proof {
            assert(colors@.take(j as int) =~= colors@);
        }
        let positive: u64 = if colors.len() > 0 {
            1
        } else {
            0
        };
        let unique: u64 = if colors.len() == 1 {
            1
        } else {
            0
        };
        *self = RunningStats {
            n_reads: before.n_reads + 1,
            n_positive_reads: before.n_positive_reads + positive,
            n_unique_positive_reads: before.n_unique_positive_reads + unique,
            max_color_id: max,
        };
    }

    /// Reads one line and takes in the read that it describes.
    ///
    /// The buffer `color_buf` is only working space: what it held before is
    /// dropped, and afterwards it holds the colors of this line. A line that
    /// is not well formed gives `MalformedLine` and leaves the statistics as
    /// they were.
    pub fn add_line(&mut self, line: &str, color_buf: &mut Vec<u64>) -> (res: Result<
        (),
        StatsError,
    >)
        requires
            old(self)@.n_reads < u64::MAX,
        ensures
            res is Ok <==> well_formed(line@),
            res is Ok ==> final(self)@ == old(self)@.step(colors_of(line@)) && final(color_buf)@
                == colors_of(line@),
            res is Err ==> res == Err::<(), StatsError>(StatsError::MalformedLine) && *final(self)
                == *old(self) && final(color_buf)@ == Seq::<u64>::empty(),
            final(self)@.ordered(),
    {
        proof {
            use_type_invariant(&*self);
        }
        let mut read_id: u64 = 0;
        match parse_line(line, &mut read_id, color_buf) {
            Ok(()) => {
                self.record(color_buf.as_slice());
                Ok(())
            },
            Err(e) => Err(e),
        }
    }

    /// The share of positive reads among all reads. With no read there is no
    /// such share, and the answer is `EmptyInputDivision`.
    pub fn fraction_positive(&self) -> (res: Result<Fraction, StatsError>)
        ensures
            match res {
                Ok(share) => self@.n_reads > 0 && share.numerator == self@.n_positive_reads
                    && share.denominator == self@.n_reads && share.numerator <= share.denominator,
                Err(e) => self@.n_reads == 0 && e == StatsError::EmptyInputDivision,
            },
    {
        proof {
            use_type_invariant(self);
        }
        if self.n_reads == 0 {
            Err(StatsError::EmptyInputDivision)
        } else {
            Ok(Fraction { numerator: self.n_positive_reads, denominator: self.n_reads })
        }
    }

    /// The share of unique positive reads among all reads. With no read there
    /// is no such share, and the answer is `EmptyInputDivision`.
    pub fn fraction_unique_positive(&self) -> (res: Result<Fraction, StatsError>)
        ensures
            match res {
                Ok(share) => self@.n_reads > 0 && share.numerator == self@.n_unique_positive_reads
                    && share.denominator == self@.n_reads && share.numerator <= share.denominator,
                Err(e) => self@.n_reads == 0 && e == StatsError::EmptyInputDivision,
            },
    {
        proof {
            use_type_invariant(self);
        }
        if self.n_reads == 0 {
            Err(StatsError::EmptyInputDivision)
        } else {
            Ok(Fraction { numerator: self.n_unique_positive_reads, denominator: self.n_reads })
        }
    }

    /// Number of reads seen.
    pub fn n_reads(&self) -> (n: u64)
        ensures
            n == self@.n_reads,
    {
        self.n_reads
    }

    /// Number of reads seen that have at least one color.
    pub fn n_positive_reads(&self) -> (n: u64)
        ensures
            n == self@.n_positive_reads,
    {
        self.n_positive_reads
    }

    /// Number of reads seen that have exactly one color.
    pub fn n_unique_positive_reads(&self) -> (n: u64)
        ensures
            n == self@.n_unique_positive_reads,
    {
        self.n_unique_positive_reads
    }

    /// Largest color identifier seen, 0 if no color was seen.
    pub fn max_color_id(&self) -> (id: u64)
        ensures
            id == self@.max_color_id,
    {
        self.max_color_id
    }
}

/// The texts of the given lines.
pub open spec fn line_texts(lines: Seq<&str>) -> Seq<Seq<char>> {
    lines.map_values(|line: &str| line@)
}

/// Whether every one of the lines is well formed.
pub open spec fn all_well_formed(lines: Seq<Seq<char>>) -> bool {
    forall|i: int| 0 <= i < lines.len() ==> well_formed(#[trigger] lines[i])
}

/// The reads that well-formed lines describe, each given by its colors.
pub open spec fn reads_of(lines: Seq<Seq<char>>) -> Seq<Seq<u64>>
    recommends
        all_well_formed(lines),
{
    lines.map_values(|line: Seq<char>| colors_of(line))
}

/// What a pass over `lines` comes to: the statistics of their reads, or
/// `MalformedLine` and no statistics at all if any line is not well formed.
pub open spec fn summary_of(lines: Seq<Seq<char>>) -> Result<Tally, StatsError> {
    if all_well_formed(lines) {
        Ok(tally_of(reads_of(lines)))
    } else {
        Err(StatsError::MalformedLine)
    }
}

/// Whether `outcome` is what a pass over `lines` comes to.
pub open spec fn is_summary(
    lines: Seq<Seq<char>>,
    outcome: Result<RunningStats, StatsError>,
) -> bool {
    match outcome {
        Ok(stats) => summary_of(lines) == Ok::<Tally, StatsError>(stats@),
        Err(e) => summary_of(lines) == Err::<Tally, StatsError>(e),
    }
}

/// Computes the statistics of a file given by its lines, in one pass.
///
/// The pass stops at the first line that is not well formed, and then
/// nothing of what it has counted is returned.
pub fn compute_stats(lines: &[&str]) -> (res: Result<RunningStats, StatsError>)
    ensures
        is_summary(line_texts(lines@), res),
        res matches Ok(stats) ==> stats@.ordered(),
{
    let ghost texts = line_texts(lines@);
    let mut stats = RunningStats::new();
    let mut color_buf: Vec<u64> = Vec::new();
    let mut i: usize = 0;
    proof {
        lemma_tally_is_fold(Seq::<Seq<u64>>::empty(), Seq::<u64>::empty());
        assert(reads_of(texts.take(0)) =~= Seq::<Seq<u64>>::empty());
    }
    while i < lines.len()
        invariant
            i <= lines.len(),
            texts == line_texts(lines@),
            all_well_formed(texts.take(i as int)),
            stats@ == tally_of(reads_of(texts.take(i as int))),
            stats@.ordered(),
        decreases lines.len() - i,
    {
        proof {
            lemma_tally_is_fold(reads_of(texts.take(i as int)), colors_of(texts[i as int]));
            assert(reads_of(texts.take(i + 1)) =~= reads_of(texts.take(i as int)).push(
                colors_of(texts[i as int]),
            ));
        }
        match stats.add_line(lines[i], &mut color_buf) {
            Ok(()) => {},
            Err(e) => {
                return Err(e);
            },
        }
        proof {
            assert forall|k: int| 0 <= k < i + 1 implies well_formed(
                #[trigger] texts.take(i + 1)[k],
            ) by {
                if k < i {
                    assert(texts.take(i as int)[k] == texts.take(i + 1)[k]);
                }
            }
        }
        i += 1;
    }
    proof {
        assert(texts.take(i as int) =~= texts);
    }
    Ok(stats)
}

/// Two passes over the same lines come to the same: the same statistics, or
/// both to the same error.
pub proof fn lemma_summary_is_unique(
    lines: Seq<Seq<char>>,
    first: Result<RunningStats, StatsError>,
    second: Result<RunningStats, StatsError>,
)
    requires
        is_summary(lines, first),
        is_summary(lines, second),
    ensures
        first == second,
{
}

} // verus!
