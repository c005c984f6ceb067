//! In-place quicksort engine over totally ordered 32-bit keys, with a family
//! of interchangeable partitioning strategies: Lomuto and Hoare two-way
//! partitioning (plain and cache-blocked), multi-pivot partitioning with two,
//! three and four pivots, and a k-way bucket partitioner backed by an explicit
//! scratch arena.

use vstd::prelude::*;

pub mod bucket;
pub mod laws;
pub mod multi_pivot;
pub mod perm;
pub mod qsort;
pub mod ty;
pub mod util;

verus! {

/// Ranges below this length are handed to the insertion-sort fallback
/// instead of being partitioned further.
pub const INSERTION_SORT_THRESHOLD: usize = 27;

} // verus!
