use vstd::prelude::*;

verus! {

/// Why the statistics of a file, or a share of its reads, cannot be given.
#[derive(Clone, Copy, Debug, PartialEq, Eq, Structural)]
pub enum StatsError {
    /// A line is not a valid record: its read identifier is missing, or one of
    /// its tokens is not a non-negative integer that fits in 64 bits.
    MalformedLine,
    /// A share of the reads was asked for although there is no read.
    EmptyInputDivision,
}

} // verus!
