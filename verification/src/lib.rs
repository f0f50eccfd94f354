//! Aggregation of AdGuard domain rules: parsing, coverage, compaction and merging.
use vstd::prelude::*;

pub mod text;
pub mod rule;
pub mod index;
pub mod coverage;
pub mod sort;
pub mod merge;
pub mod laws;
pub mod pipeline;
pub mod listing;

verus! {
} // verus!
