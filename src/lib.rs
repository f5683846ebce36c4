//! Sorting of tab-delimited text lines under a numeric-aware field order,
//! with a bounded-memory run/merge pipeline for ranges ended by a sentinel line.

pub mod order;
pub mod compare;
pub mod sort;
pub mod merge;
pub mod range;

pub use compare::{linecomp, tsv_cmp};
pub use range::{sort_range, RangeError, DEFAULT_RUN_BUDGET};
pub use sort::sort_lines;
