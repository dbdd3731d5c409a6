//! General laws of the sort, proved once over the same spec functions that
//! the sort's own contracts use.

use vstd::prelude::*;
use crate::{sorted_range, perm_range, same_outside};

verus! {

/// Sorting an already-sorted range is a no-op: no value changes position.
///
/// The sort promises a sorted permutation of the range and nothing else
/// moved; this law shows those promises pin the result down. Whenever the
/// input range `[first, last)` of `s` is already sorted, any sequence `t`
/// meeting the sort's contract for it — sorted on the range, the same
/// multiset of values there, untouched elsewhere — is `s` itself. Ranges
/// of at most one element are sorted, so they too are left unchanged.
pub proof fn lemma_sorted_sort_is_noop(s: Seq<u64>, t: Seq<u64>, first: int, last: int)
    requires
        0 <= first <= last <= s.len(),
        sorted_range(s, first, last),
        sorted_range(t, first, last),
        perm_range(t, s, first, last),
        same_outside(t, s, first, last),
    ensures
        t == s,
{
    let leq = |x: u64, y: u64| x <= y;
    let su = s.subrange(first, last);
    let tu = t.subrange(first, last);
    assert(vstd::relations::sorted_by(su, leq));
    assert(vstd::relations::sorted_by(tu, leq));
    assert(vstd::relations::total_ordering(leq));
    vstd::seq_lib::lemma_sorted_unique(su, tu, leq);
    assert forall|k: int| 0 <= k < t.len() implies t[k] == s[k] by {
        if first <= k < last {
            assert(tu[k - first] == su[k - first]);
        }
    }
    assert(t =~= s);
}

} // verus!
