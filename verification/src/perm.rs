//! Lemmas about `perm_range`: preservation of a range's multiset of values
//! under the in-place rearrangements the sort performs.

use vstd::prelude::*;
use crate::{perm_range, same_outside};

verus! {

broadcast use vstd::seq_lib::group_to_multiset_ensures, vstd::multiset::group_multiset_axioms;

/// Extending equal ranges by one equal element keeps the multisets equal.
pub proof fn lemma_perm_extend(s: Seq<u64>, t: Seq<u64>, lo: int, hi: int)
    requires
        0 <= lo <= hi < s.len(),
        s.len() == t.len(),
        perm_range(s, t, lo, hi),
        s[hi] == t[hi],
    ensures
        perm_range(s, t, lo, hi + 1),
{
    assert(s.subrange(lo, hi + 1) =~= s.subrange(lo, hi).push(s[hi]));
    assert(t.subrange(lo, hi + 1) =~= t.subrange(lo, hi).push(t[hi]));
}

/// A permutation of an inner range extends to any enclosing range whose
/// remaining positions are untouched.
pub proof fn lemma_perm_frame(s: Seq<u64>, t: Seq<u64>, c1: int, m1: int, m2: int, c2: int)
    requires
        0 <= c1 <= m1 <= m2 <= c2 <= s.len(),
        s.len() == t.len(),
        forall|k: int| c1 <= k < m1 ==> s[k] == t[k],
        forall|k: int| m2 <= k < c2 ==> s[k] == t[k],
        perm_range(s, t, m1, m2),
    ensures
        perm_range(s, t, c1, c2),
{
    assert(s.subrange(c1, c2) =~= s.subrange(c1, m1) + s.subrange(m1, m2) + s.subrange(m2, c2));
    assert(t.subrange(c1, c2) =~= t.subrange(c1, m1) + t.subrange(m1, m2) + t.subrange(m2, c2));
    assert(s.subrange(c1, m1) =~= t.subrange(c1, m1));
    assert(s.subrange(m2, c2) =~= t.subrange(m2, c2));
    vstd::seq_lib::lemma_multiset_commutative(s.subrange(c1, m1) + s.subrange(m1, m2), s.subrange(m2, c2));
    vstd::seq_lib::lemma_multiset_commutative(s.subrange(c1, m1), s.subrange(m1, m2));
    vstd::seq_lib::lemma_multiset_commutative(t.subrange(c1, m1) + t.subrange(m1, m2), t.subrange(m2, c2));
    vstd::seq_lib::lemma_multiset_commutative(t.subrange(c1, m1), t.subrange(m1, m2));
}

/// A value of a rearranged range already occurred somewhere in the range.
pub proof fn lemma_perm_index(s: Seq<u64>, t: Seq<u64>, lo: int, hi: int, j: int)
    requires
        0 <= lo <= hi <= s.len(),
        s.len() == t.len(),
        perm_range(s, t, lo, hi),
        lo <= j < hi,
    ensures
        exists|i: int| #![trigger s[i]] lo <= i < hi && s[i] == t[j],
{
    assert(t.subrange(lo, hi)[j - lo] == t[j]);
    assert(t.subrange(lo, hi).contains(t[j]));
    assert(t.subrange(lo, hi).to_multiset().count(t[j]) > 0);
    assert(s.subrange(lo, hi).to_multiset().count(t[j]) > 0);
    assert(s.subrange(lo, hi).contains(t[j]));
    let k = choose|k: int| 0 <= k < s.subrange(lo, hi).len() && s.subrange(lo, hi)[k] == t[j];
    assert(s[k + lo] == t[j]);
}

/// A lower bound on every value of a range survives rearrangement.
pub proof fn lemma_perm_lbound(s: Seq<u64>, t: Seq<u64>, lo: int, hi: int, x: u64)
    requires
        0 <= lo <= hi <= s.len(),
        s.len() == t.len(),
        perm_range(s, t, lo, hi),
        forall|k: int| lo <= k < hi ==> x <= s[k],
    ensures
        forall|k: int| lo <= k < hi ==> x <= t[k],
{
    assert forall|k: int| lo <= k < hi implies x <= t[k] by {
        lemma_perm_index(s, t, lo, hi, k);
        let i = choose|i: int| #![trigger s[i]] lo <= i < hi && s[i] == t[k];
        assert(x <= s[i]);
    }
}

/// An upper bound on every value of a range survives rearrangement.
pub proof fn lemma_perm_ubound(s: Seq<u64>, t: Seq<u64>, lo: int, hi: int, x: u64)
    requires
        0 <= lo <= hi <= s.len(),
        s.len() == t.len(),
        perm_range(s, t, lo, hi),
        forall|k: int| lo <= k < hi ==> s[k] <= x,
    ensures
        forall|k: int| lo <= k < hi ==> t[k] <= x,
{
    assert forall|k: int| lo <= k < hi implies t[k] <= x by {
        lemma_perm_index(s, t, lo, hi, k);
        let i = choose|i: int| #![trigger s[i]] lo <= i < hi && s[i] == t[k];
        assert(s[i] <= x);
    }
}

/// Swapping two positions of a range keeps its multiset of values.
pub proof fn lemma_swap_perm(s: Seq<u64>, t: Seq<u64>, lo: int, hi: int, i: int, j: int)
    requires
        0 <= lo <= i < hi <= s.len(),
        lo <= j < hi,
        t == s.update(i, s[j]).update(j, s[i]),
    ensures
        perm_range(s, t, lo, hi),
        same_outside(s, t, lo, hi),
{
    let su = s.subrange(lo, hi);
    let tu = t.subrange(lo, hi);
    if i == j {
        assert(su =~= tu);
    } else {
        assert(tu =~= su.update(i - lo, su[j - lo]).update(j - lo, su[i - lo]));
        lemma_update_multiset(su, i - lo, su[j - lo]);
        let su1 = su.update(i - lo, su[j - lo]);
        lemma_update_multiset(su1, j - lo, su[i - lo]);
        assert(su1[j - lo] == su[j - lo]);
        assert(su.to_multiset().count(su[i - lo]) > 0) by {
            assert(su.contains(su[i - lo]));
        }
        assert(su1.to_multiset().count(su[j - lo]) > 0) by {
            assert(su1[i - lo] == su[j - lo]);
            assert(su1.contains(su[j - lo]));
        }
        assert(tu.to_multiset() =~= su.to_multiset());
    }
}

/// Shifting a sorted block right by one and dropping `value` into the gap
/// keeps the multiset of the enclosing range, provided `value` is the value
/// that stood at the range's end.
pub proof fn lemma_insert_shift_perm(f: Seq<u64>, o: Seq<u64>, lo: int, p: int, l: int, value: u64)
    requires
        0 <= lo <= p <= l < o.len(),
        f.len() == o.len(),
        f.subrange(lo, l + 1) == o.subrange(lo, p) + seq![value] + o.subrange(p, l),
        o[l] == value,
    ensures
        perm_range(f, o, lo, l + 1),
{
    let pre = o.subrange(lo, p);
    let mid = o.subrange(p, l);
    assert(o.subrange(lo, l + 1) =~= pre + mid + seq![value]);
    vstd::seq_lib::lemma_multiset_commutative(pre + seq![value], mid);
    vstd::seq_lib::lemma_multiset_commutative(pre, seq![value]);
    vstd::seq_lib::lemma_multiset_commutative(pre + mid, seq![value]);
    vstd::seq_lib::lemma_multiset_commutative(pre, mid);
    assert(f.subrange(lo, l + 1).to_multiset() =~= o.subrange(lo, l + 1).to_multiset());
}

/// Overwriting one position rewrites the range's multiset by one value.
proof fn lemma_update_multiset(s: Seq<u64>, i: int, v: u64)
    requires
        0 <= i < s.len(),
    ensures
        s.update(i, v).to_multiset() == s.to_multiset().remove(s[i]).insert(v),
{
    assert(s.update(i, v) =~= s.remove(i).insert(i, v));
    vstd::seq_lib::to_multiset_insert(s.remove(i), i, v);
}

} // verus!
