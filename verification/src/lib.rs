//! A hybrid comparison sort for `u64` sequences: an introsort-style
//! quicksort with median-of-three pivot selection, Hoare partitioning,
//! and a final insertion-sort cleanup pass over threshold-sized clusters.

use vstd::prelude::*;

pub mod laws;
pub mod perm;
pub mod sort;

pub use crate::sort::quicksort;

verus! {

/// Ranges no longer than this are left to insertion sort.
pub const THRESHOLD: usize = 16;

/// The values of `s` at indices `[lo, hi)` are in ascending order.
pub open spec fn sorted_range(s: Seq<u64>, lo: int, hi: int) -> bool {
    forall|i: int, j: int| lo <= i < j < hi ==> s[i] <= s[j]
}

/// `s` and `t` hold the same values, with the same repetitions, at
/// indices `[lo, hi)`.
pub open spec fn perm_range(s: Seq<u64>, t: Seq<u64>, lo: int, hi: int) -> bool {
    s.subrange(lo, hi).to_multiset() == t.subrange(lo, hi).to_multiset()
}

/// `s` and `t` have equal lengths and agree everywhere outside `[lo, hi)`.
pub open spec fn same_outside(s: Seq<u64>, t: Seq<u64>, lo: int, hi: int) -> bool {
    &&& s.len() == t.len()
    &&& forall|k: int| 0 <= k < s.len() && !(lo <= k < hi) ==> s[k] == t[k]
}

} // verus!
