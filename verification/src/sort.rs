//! The sort itself: insertion sorts (guarded and unguarded), median-of-three
//! pivot selection, Hoare partitioning, and the quicksort driver.

use vstd::prelude::*;
use vstd::pervasive::VecAdditionalExecFns;
use crate::{sorted_range, perm_range, same_outside};
use crate::perm::{lemma_perm_extend, lemma_perm_frame, lemma_perm_index, lemma_perm_lbound,
    lemma_perm_ubound, lemma_swap_perm, lemma_insert_shift_perm};

verus! {

/// The middle value of three: the one that is neither the strict minimum
/// nor the strict maximum of the triple.
pub open spec fn spec_median3(a: u64, b: u64, c: u64) -> u64 {
    if a < b {
        if b < c {
            b
        } else if a < c {
            c
        } else {
            a
        }
    } else if a < c {
        a
    } else if b < c {
        c
    } else {
        b
    }
}

/// Picks the median of three candidate values through a fixed decision tree.
fn median_of_3(a: u64, b: u64, c: u64) -> (m: u64)
    ensures
        m == spec_median3(a, b, c),
        m == a || m == b || m == c,
        b <= m || c <= m,
        m <= b || m <= c,
{
    if a < b {
        if b < c {
            b
        } else if a < c {
            c
        } else {
            a
        }
    } else if a < c {
        a
    } else if b < c {
        c
    } else {
        b
    }
}

/// Inserts `value` (the value standing at index `last`) into the sorted
/// block ending at `last`, shifting greater values right. No boundary check:
/// the scan relies on the value at `lo` being no greater than `value`.
fn unguarded_linear_insert(a: &mut Vec<u64>, last: usize, value: u64, lo: Ghost<int>)
    requires
        0 <= lo@ < last < old(a).len(),
        sorted_range(old(a)@, lo@, last as int),
        old(a)@[lo@] <= value,
        old(a)@[last as int] == value,
    ensures
        same_outside(final(a)@, old(a)@, lo@, last + 1),
        perm_range(final(a)@, old(a)@, lo@, last + 1),
        sorted_range(final(a)@, lo@, last + 1),
        final(a)@[lo@] == old(a)@[lo@],
{
    let mut previous: usize = last - 1;
    let mut current: usize = last;
    while value < a[previous]
        invariant
            0 <= lo@ <= previous < last,
            current == previous + 1,
            a@.len() == old(a)@.len(),
            last < a@.len(),
            old(a)@[lo@] <= value,
            sorted_range(old(a)@, lo@, last as int),
            forall|k: int| 0 <= k <= previous ==> a@[k] == old(a)@[k],
            forall|k: int| current < k <= last ==> a@[k] == old(a)@[k - 1] && value < a@[k],
            forall|k: int| last < k < a@.len() ==> a@[k] == old(a)@[k],
        decreases previous,
    {
        proof {
            assert(a@[previous as int] == old(a)@[previous as int]);
            assert(previous as int != lo@);
        }
        let shifted = a[previous];
        a.set(current, shifted);
        previous = previous - 1;
        current = current - 1;
    }
    a.set(current, value);
    proof {
        let p = current as int;
        let l = last as int;
        assert(a@.subrange(lo@, l + 1) =~= old(a)@.subrange(lo@, p) + seq![value]
            + old(a)@.subrange(p, l));
        lemma_insert_shift_perm(a@, old(a)@, lo@, p, l, value);
        assert forall|i: int, j: int| lo@ <= i < j < l + 1 implies a@[i] <= a@[j] by {
            if j < p {
                assert(a@[i] == old(a)@[i] && a@[j] == old(a)@[j]);
            } else if j == p {
                assert(a@[i] == old(a)@[i]);
                assert(old(a)@[i] <= old(a)@[p - 1]);
            } else {
                if i < p {
                    assert(old(a)@[i] <= old(a)@[j - 1]);
                } else if i == p {
                    assert(value < a@[j]);
                }
            }
        }
    }
}

/// Inserts `value` (the value standing at index `last`) into the sorted
/// block `[first, last)`. Checks the left boundary: a new minimum shifts
/// the whole block right; anything else defers to the unguarded scan.
fn linear_insert(a: &mut Vec<u64>, first: usize, last: usize, value: u64)
    requires
        first < last < old(a).len(),
        sorted_range(old(a)@, first as int, last as int),
        old(a)@[last as int] == value,
    ensures
        same_outside(final(a)@, old(a)@, first as int, last + 1),
        perm_range(final(a)@, old(a)@, first as int, last + 1),
        sorted_range(final(a)@, first as int, last + 1),
{
    if value < a[first] {
        let mut j: usize = last;
        while j != first
            invariant
                first <= j <= last,
                a@.len() == old(a)@.len(),
                last < a@.len(),
                sorted_range(old(a)@, first as int, last as int),
                forall|k: int| 0 <= k <= j ==> a@[k] == old(a)@[k],
                forall|k: int| j < k <= last ==> a@[k] == old(a)@[k - 1],
                forall|k: int| last < k < a@.len() ==> a@[k] == old(a)@[k],
            decreases j,
        {
            let shifted = a[j - 1];
            a.set(j, shifted);
            j = j - 1;
        }
        a.set(first, value);
        proof {
            let fi = first as int;
            let l = last as int;
            assert(a@.subrange(fi, l + 1) =~= old(a)@.subrange(fi, fi) + seq![value]
                + old(a)@.subrange(fi, l));
            lemma_insert_shift_perm(a@, old(a)@, fi, fi, l, value);
            assert forall|i: int, j2: int| fi <= i < j2 < l + 1 implies a@[i] <= a@[j2] by {
                if i == fi {
                    assert(value < old(a)@[fi]);
                    assert(old(a)@[fi] <= old(a)@[j2 - 1]);
                } else {
                    assert(old(a)@[i - 1] <= old(a)@[j2 - 1]);
                }
            }
        }
    } else {
        unguarded_linear_insert(a, last, value, Ghost(first as int));
    }
}

/// Sorts the range `[first, last)` by adjacent-shift insertion, guarding
/// every leftward scan against the boundary at `first`.
fn insertion_sort(a: &mut Vec<u64>, first: usize, last: usize)
    requires
        first <= last,
        last <= old(a).len(),
    ensures
        same_outside(final(a)@, old(a)@, first as int, last as int),
        perm_range(final(a)@, old(a)@, first as int, last as int),
        sorted_range(final(a)@, first as int, last as int),
{
    if first == last {
        return;
    }
    let mut i: usize = first + 1;
    while i != last
        invariant
            first < last <= a@.len(),
            first + 1 <= i <= last,
            a@.len() == old(a)@.len(),
            forall|k: int| 0 <= k < a@.len() && !(first <= k < i) ==> a@[k] == old(a)@[k],
            perm_range(a@, old(a)@, first as int, i as int),
            sorted_range(a@, first as int, i as int),
        decreases last - i,
    {
        let ghost prev = a@;
        let value = a[i];
        linear_insert(a, first, i, value);
        proof {
            lemma_perm_extend(prev, old(a)@, first as int, i as int);
            assert(perm_range(a@, old(a)@, first as int, i + 1));
        }
        i = i + 1;
    }
}

/// Sorts `[first, last)` by insertion without ever checking the left
/// boundary. Safe only because the sorted block `[lo, first)` to its left
/// starts with a value that is no greater than any value of the range.
fn unguarded_insertion_sort(a: &mut Vec<u64>, first: usize, last: usize, lo: Ghost<int>)
    requires
        0 <= lo@ < first as int,
        first <= last,
        last <= old(a).len(),
        sorted_range(old(a)@, lo@, first as int),
        forall|j: int| first <= j < last ==> old(a)@[lo@] <= old(a)@[j],
    ensures
        same_outside(final(a)@, old(a)@, lo@, last as int),
        perm_range(final(a)@, old(a)@, lo@, last as int),
        sorted_range(final(a)@, lo@, last as int),
{
    let mut i: usize = first;
    while i != last
        invariant
            0 <= lo@ < first as int,
            first <= i <= last,
            last <= a@.len(),
            a@.len() == old(a)@.len(),
            a@[lo@] == old(a)@[lo@],
            forall|k: int| 0 <= k < a@.len() && !(lo@ <= k < i) ==> a@[k] == old(a)@[k],
            perm_range(a@, old(a)@, lo@, i as int),
            sorted_range(a@, lo@, i as int),
            forall|j: int| first <= j < last ==> old(a)@[lo@] <= old(a)@[j],
        decreases last - i,
    {
        let ghost prev = a@;
        let value = a[i];
        unguarded_linear_insert(a, i, value, lo);
        proof {
            lemma_perm_extend(prev, old(a)@, lo@, i as int);
            assert(perm_range(a@, old(a)@, lo@, i + 1));
        }
        i = i + 1;
    }
}

/// Hoare-style two-pointer partition of `[first, last)` around `pivot`:
/// scan-and-swap until the pointers cross. Returns the cut index: values
/// left of it are at most `pivot`, values from it on are at least `pivot`.
/// The inward scans carry no boundary checks; they stop because the range
/// is known to hold a value at least `pivot` and, right of `first`, a
/// value at most `pivot` — which also forces the cut strictly inside.
#[verifier::loop_isolation(false)]
fn unguarded_partition(a: &mut Vec<u64>, first: usize, last: usize, pivot: u64) -> (cut: usize)
    requires
        first < last <= old(a).len(),
        exists|k: int| first <= k < last && old(a)@[k] >= pivot,
        exists|k: int| first < k < last && old(a)@[k] <= pivot,
    ensures
        first < cut < last,
        forall|i: int| first <= i < cut ==> final(a)@[i] <= pivot,
        forall|i: int| cut <= i < last ==> final(a)@[i] >= pivot,
        perm_range(final(a)@, old(a)@, first as int, last as int),
        same_outside(final(a)@, old(a)@, first as int, last as int),
{
    let mut f = first;
    let mut l = last - 1;
    while a[f] < pivot
        invariant
            first <= f < last,
            forall|k: int| first <= k < f ==> a@[k] < pivot,
            exists|k: int| f <= k < last && a@[k] >= pivot,
        decreases last - f,
    {
        f = f + 1;
    }
    while pivot < a[l]
        invariant
            first <= l < last,
            forall|k: int| l < k < last ==> pivot < a@[k],
            exists|k: int| first < k <= l && a@[k] <= pivot,
        decreases l,
    {
        l = l - 1;
    }
    proof {
        if f > l + 1 {
            assert(a@[l as int + 1] < pivot);
            assert(false);
        }
    }
    while f < l
        invariant
            first <= f < last,
            first <= l < last,
            f <= l + 1,
            first < f || first < l,
            a@[f as int] >= pivot,
            a@[l as int] <= pivot,
            forall|k: int| first <= k < f ==> a@[k] <= pivot,
            forall|k: int| l < k < last ==> a@[k] >= pivot,
            a@.len() == old(a)@.len(),
            perm_range(a@, old(a)@, first as int, last as int),
            forall|k: int| 0 <= k < a@.len() && !(first <= k < last) ==> a@[k] == old(a)@[k],
        decreases l + 1 - f,
    {
        let ghost before = a@;
        let tf = a[f];
        let tl = a[l];
        a.set(f, tl);
        a.set(l, tf);
        proof {
            lemma_swap_perm(before, a@, first as int, last as int, f as int, l as int);
        }
        f = f + 1;
        l = l - 1;
        let ghost f_entry = f;
        let ghost l_entry = l;
        while a[f] < pivot
            invariant
                f_entry <= f,
                first < f <= l + 1,
                forall|k: int| first <= k < f ==> a@[k] <= pivot,
            decreases l + 1 - f,
        {
            f = f + 1;
        }
        while pivot < a[l]
            invariant
                l <= l_entry,
                f - 1 <= l < last,
                forall|k: int| l < k < last ==> a@[k] >= pivot,
            decreases l,
        {
            l = l - 1;
        }
    }
    proof {
        assert forall|i: int| f <= i < last implies a@[i] >= pivot by {
            if i == l {
                assert(a@[f as int] >= pivot);
            }
        }
    }
    f
}

/// Splits `[first, last)` into clusters of at most `threshold` elements,
/// each cluster's values no greater than the next's: afterwards any two
/// values a full `threshold` or more apart already stand in order. Always
/// recurses into the smaller side of a cut and iterates on the larger,
/// which bounds the recursion depth. Clusters are left unsorted inside.
#[verifier::loop_isolation(false)]
#[verifier::rlimit(60)]
fn quicksort_loop(a: &mut Vec<u64>, first: usize, last: usize, threshold: usize)
    requires
        first <= last <= old(a).len(),
        threshold >= 1,
    ensures
        same_outside(final(a)@, old(a)@, first as int, last as int),
        perm_range(final(a)@, old(a)@, first as int, last as int),
        forall|i: int, j: int|
            first <= i < j < last && j - i >= threshold ==> final(a)@[i] <= final(a)@[j],
    decreases last - first,
{
    let mut lo = first;
    let mut hi = last;
    let mut len = hi - lo;
    while len > threshold
        invariant
            first <= lo <= hi <= last,
            len == hi - lo,
            a@.len() == old(a)@.len(),
            forall|k: int| 0 <= k < a@.len() && !(first <= k < last) ==> a@[k] == old(a)@[k],
            perm_range(a@, old(a)@, first as int, last as int),
            forall|i: int, j: int| first <= i < lo && lo <= j < hi ==> a@[i] <= a@[j],
            forall|i: int, j: int| lo <= i < hi && hi <= j < last ==> a@[i] <= a@[j],
            forall|i: int, j: int|
                first <= i < j < last && j - i >= threshold && !(lo <= i && j < hi)
                    ==> a@[i] <= a@[j],
        decreases hi - lo,
    {
        let middle = lo + (hi - lo) / 2;
        let pivot = median_of_3(a[lo], a[middle], a[hi - 1]);
        let ghost s1 = a@;
        proof {
            let loi = lo as int;
            let hii = hi as int;
            let mi = middle as int;
            assert(loi < mi <= hii - 1);
            assert(exists|k: int| loi <= k < hii && s1[k] >= pivot) by {
                if pivot == s1[loi] {
                    assert(s1[loi] >= pivot);
                } else if pivot == s1[mi] {
                    assert(s1[mi] >= pivot);
                } else {
                    assert(s1[hii - 1] >= pivot);
                }
            }
            assert(exists|k: int| loi < k < hii && s1[k] <= pivot) by {
                if s1[mi] <= pivot {
                    assert(s1[mi] <= pivot);
                } else {
                    assert(s1[hii - 1] <= pivot);
                }
            }
        }
        let cut = unguarded_partition(a, lo, hi, pivot);
        let ghost s2 = a@;
        proof {
            lemma_perm_frame(s2, s1, first as int, lo as int, hi as int, last as int);
        }
        if hi - cut < cut - lo {
            quicksort_loop(a, cut, hi, threshold);
            proof {
                let fi = first as int;
                let la = last as int;
                let loi = lo as int;
                let hii = hi as int;
                let cuti = cut as int;
                let t = threshold as int;
                lemma_perm_frame(a@, s2, fi, cuti, hii, la);
                assert(forall|k: int| loi <= k < cuti ==> a@[k] == s2[k]);
                assert(forall|k: int|
                    0 <= k < a@.len() && !(loi <= k < hii) ==> a@[k] == s1[k]);
                lemma_perm_lbound(s2, a@, cuti, hii, pivot);
                assert forall|i: int, j: int|
                    fi <= i < loi && loi <= j < hii implies a@[i] <= a@[j] by {
                    if j < cuti {
                        lemma_perm_index(s1, s2, loi, hii, j);
                        let m = choose|m: int| #![trigger s1[m]]
                            loi <= m < hii && s1[m] == s2[j];
                        assert(s1[i] <= s1[m]);
                    } else {
                        lemma_perm_index(s2, a@, cuti, hii, j);
                        let m = choose|m: int| #![trigger s2[m]]
                            cuti <= m < hii && s2[m] == a@[j];
                        lemma_perm_index(s1, s2, loi, hii, m);
                        let m2 = choose|m2: int| #![trigger s1[m2]]
                            loi <= m2 < hii && s1[m2] == s2[m];
                        assert(s1[i] <= s1[m2]);
                    }
                }
                assert forall|i: int, j: int|
                    loi <= i < hii && hii <= j < la implies a@[i] <= a@[j] by {
                    if i < cuti {
                        lemma_perm_index(s1, s2, loi, hii, i);
                        let m = choose|m: int| #![trigger s1[m]]
                            loi <= m < hii && s1[m] == s2[i];
                        assert(s1[m] <= s1[j]);
                    } else {
                        lemma_perm_index(s2, a@, cuti, hii, i);
                        let m = choose|m: int| #![trigger s2[m]]
                            cuti <= m < hii && s2[m] == a@[i];
                        lemma_perm_index(s1, s2, loi, hii, m);
                        let m2 = choose|m2: int| #![trigger s1[m2]]
                            loi <= m2 < hii && s1[m2] == s2[m];
                        assert(s1[m2] <= s1[j]);
                    }
                }
                assert(forall|i: int, j: int|
                    loi <= i < cuti && cuti <= j < hii ==> a@[i] <= a@[j]);
                assert forall|i: int, j: int|
                    fi <= i < j < la && j - i >= t && !(loi <= i && j < cuti)
                        implies a@[i] <= a@[j] by {
                    if i < loi {
                        if !(loi <= j && j < hii) {
                            assert(a@[i] == s1[i] && a@[j] == s1[j]);
                        }
                    } else if cuti <= i && i < hii && j < hii {
                        assert(a@[i] <= a@[j]);
                    } else if hii <= i {
                        assert(a@[i] == s1[i] && a@[j] == s1[j]);
                    }
                }
            }
            hi = cut;
        } else {
            quicksort_loop(a, lo, cut, threshold);
            proof {
                let fi = first as int;
                let la = last as int;
                let loi = lo as int;
                let hii = hi as int;
                let cuti = cut as int;
                let t = threshold as int;
                lemma_perm_frame(a@, s2, fi, loi, cuti, la);
                assert(forall|k: int| cuti <= k < hii ==> a@[k] == s2[k]);
                assert(forall|k: int|
                    0 <= k < a@.len() && !(loi <= k < hii) ==> a@[k] == s1[k]);
                lemma_perm_ubound(s2, a@, loi, cuti, pivot);
                assert forall|i: int, j: int|
                    fi <= i < cuti && cuti <= j < hii implies a@[i] <= a@[j] by {
                    if i < loi {
                        lemma_perm_index(s1, s2, loi, hii, j);
                        let m = choose|m: int| #![trigger s1[m]]
                            loi <= m < hii && s1[m] == s2[j];
                        assert(s1[i] <= s1[m]);
                    } else {
                        assert(a@[i] <= pivot);
                        assert(a@[j] == s2[j] && s2[j] >= pivot);
                    }
                }
                assert forall|i: int, j: int|
                    cuti <= i < hii && hii <= j < la implies a@[i] <= a@[j] by {
                    lemma_perm_index(s1, s2, loi, hii, i);
                    let m = choose|m: int| #![trigger s1[m]]
                        loi <= m < hii && s1[m] == s2[i];
                    assert(s1[m] <= s1[j]);
                }
                assert forall|i: int, j: int|
                    fi <= i < loi && loi <= j < cuti implies a@[i] <= a@[j] by {
                    lemma_perm_index(s2, a@, loi, cuti, j);
                    let m = choose|m: int| #![trigger s2[m]]
                        loi <= m < cuti && s2[m] == a@[j];
                    lemma_perm_index(s1, s2, loi, hii, m);
                    let m2 = choose|m2: int| #![trigger s1[m2]]
                        loi <= m2 < hii && s1[m2] == s2[m];
                    assert(s1[i] <= s1[m2]);
                }
                assert forall|i: int, j: int|
                    loi <= i < cuti && hii <= j < la implies a@[i] <= a@[j] by {
                    lemma_perm_index(s2, a@, loi, cuti, i);
                    let m = choose|m: int| #![trigger s2[m]]
                        loi <= m < cuti && s2[m] == a@[i];
                    lemma_perm_index(s1, s2, loi, hii, m);
                    let m2 = choose|m2: int| #![trigger s1[m2]]
                        loi <= m2 < hii && s1[m2] == s2[m];
                    assert(s1[m2] <= s1[j]);
                }
                assert forall|i: int, j: int|
                    fi <= i < j < la && j - i >= t && !(cuti <= i && j < hii)
                        implies a@[i] <= a@[j] by {
                    if i < loi {
                        if !(loi <= j && j < hii) {
                            assert(a@[i] == s1[i] && a@[j] == s1[j]);
                        }
                    } else if i < cuti && j < cuti {
                        assert(a@[i] <= a@[j]);
                    } else if hii <= i {
                        assert(a@[i] == s1[i] && a@[j] == s1[j]);
                    }
                }
            }
            lo = cut;
        }
        len = hi - lo;
    }
}

/// Sorts `array[first..last)` in place, ascending. The rest of the array
/// is left untouched, and the range keeps exactly its values: the result
/// is a sorted permutation of the input range. Ranges of at most
/// [`crate::THRESHOLD`] elements go straight to insertion sort; longer
/// ones are first clustered by the quicksort loop, then finished by one
/// guarded insertion pass over the leading cluster and one unguarded pass
/// over the remainder, for which the leading cluster's minimum serves as
/// the sentinel. A range of at most one element is left exactly as it was.
pub fn quicksort(array: &mut Vec<u64>, first: usize, last: usize)
    requires
        first <= last <= old(array).len(),
    ensures
        same_outside(final(array)@, old(array)@, first as int, last as int),
        perm_range(final(array)@, old(array)@, first as int, last as int),
        sorted_range(final(array)@, first as int, last as int),
        sorted_range(old(array)@, first as int, last as int) ==> final(array)@ == old(array)@,
        last - first <= 1 ==> final(array)@ == old(array)@,
{
    let len = last - first;
    let threshold: usize = crate::THRESHOLD;
    if len <= threshold {
        insertion_sort(array, first, last);
    } else {
        quicksort_loop(array, first, last, threshold);
        let ghost s1 = array@;
        let middle = first + threshold;
        insertion_sort(array, first, middle);
        let ghost s2 = array@;
        proof {
            let fi = first as int;
            let mi = middle as int;
            let la = last as int;
            lemma_perm_frame(s2, s1, fi, fi, mi, la);
            assert forall|j: int| mi <= j < la implies s2[fi] <= s2[j] by {
                lemma_perm_index(s2, s1, fi, mi, fi);
                let p = choose|p: int| #![trigger s2[p]] fi <= p < mi && s2[p] == s1[fi];
                assert(s2[fi] <= s2[p]);
                assert(s1[fi] <= s1[j]);
                assert(s2[j] == s1[j]);
            }
        }
        unguarded_insertion_sort(array, middle, last, Ghost(first as int));
    }
    proof {
        if sorted_range(old(array)@, first as int, last as int) {
            crate::laws::lemma_sorted_sort_is_noop(
                old(array)@, array@, first as int, last as int);
        }
    }
}

} // verus!
