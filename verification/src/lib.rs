//! Summary statistics over pseudoalignment result files.
//!
//! A pseudoalignment file holds one read per line: the read's identifier
//! followed by the identifiers of the colors (reference sequences) that the
//! read aligned to, all of them non-negative integers separated by single
//! spaces.
//!
//! [`line`] reads one such line, [`stats`] folds the reads into running
//! statistics, one line at a time, so that a file of any length can be
//! summarised without being held in memory.

pub mod error;
pub mod line;
pub mod stats;

pub use error::StatsError;
pub use line::{parse_line, ParsedLine};
pub use stats::{compute_stats, Fraction, RunningStats};
