//! Sequence utilities: Levenshtein distance with a run-length alignment
//! string, Knuth-Morris-Pratt substring search, and line filters built on them.

pub mod align;
pub mod metric;
pub mod kmp;
pub mod grep;
