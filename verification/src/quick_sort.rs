//! Quick sort with Hoare-style partitioning around the first element of
//! each range.

use vstd::prelude::*;

use crate::order::{
    lemma_multiset_frame, lemma_multiset_ge_bound, lemma_multiset_le_bound, lemma_multiset_split3,
    sorted, sorted_between, swap_items,
};

verus! {

/// Sort `arr` in place in non-decreasing order. The result is a
/// permutation of the input.
pub fn quick_sort(arr: &mut Vec<i32>)
    ensures
        sorted(final(arr)@),
        final(arr)@.to_multiset() == old(arr)@.to_multiset(),
        final(arr)@.len() == old(arr)@.len(),
{
    if arr.len() > 1 {
        let hi = arr.len() - 1;
        let ghost pre = arr@;
        quick_sort_range(arr, 0, hi);
        proof {
            assert(pre.subrange(0, pre.len() as int) =~= pre);
            assert(arr@.subrange(0, arr@.len() as int) =~= arr@);
        }
    }
}

/// Sort `arr` between `lo` and `hi` inclusive. Everything outside that
/// window is left exactly in place, and the window keeps its elements.
fn quick_sort_range(arr: &mut Vec<i32>, lo: usize, hi: usize)
    requires
        hi < old(arr)@.len(),
        lo <= hi + 1,
    ensures
        final(arr)@.len() == old(arr)@.len(),
        forall|k: int| 0 <= k < old(arr)@.len() && !(lo <= k <= hi) ==> final(arr)@[k] == old(
            arr,
        )@[k],
        final(arr)@.subrange(lo as int, hi + 1).to_multiset() == old(arr)@.subrange(
            lo as int,
            hi + 1,
        ).to_multiset(),
        sorted_between(final(arr)@, lo as int, hi + 1),
    decreases hi + 1 - lo,
{
    if lo < hi {
        let ghost s0 = arr@;
        let n = arr.len();
        let pos = partition(arr, lo, hi);
        proof {
            assert(pos < n);
        }
        let ghost s1 = arr@;
        let ghost pv = s1[pos as int];
        proof {
            lemma_multiset_frame(s0, s1, lo as int, hi + 1);
        }
        if pos != 0 {
            quick_sort_range(arr, lo, pos - 1);
        }
        let ghost s2 = arr@;
        proof {
            // the left half kept its elements, all at most the pivot
            lemma_multiset_le_bound(
                s1.subrange(lo as int, pos as int),
                s2.subrange(lo as int, pos as int),
                pv,
            );
            assert(s2[pos as int] == pv);
            lemma_multiset_split3(s1, lo as int, pos as int, hi + 1);
            lemma_multiset_split3(s2, lo as int, pos as int, hi + 1);
            assert(s1.subrange(pos as int, pos + 1) =~= s2.subrange(pos as int, pos + 1));
            assert(s1.subrange(pos + 1, hi + 1) =~= s2.subrange(pos + 1, hi + 1));
            assert(s2.subrange(lo as int, hi + 1).to_multiset() == s1.subrange(
                lo as int,
                hi + 1,
            ).to_multiset());
        }
        quick_sort_range(arr, pos + 1, hi);
        let ghost s3 = arr@;
        proof {
            // the right half kept its elements, all at least the pivot
            lemma_multiset_ge_bound(
                s2.subrange(pos + 1, hi + 1),
                s3.subrange(pos + 1, hi + 1),
                pv,
            );
            assert(s3[pos as int] == pv);
            lemma_multiset_split3(s2, lo as int, pos as int, hi + 1);
            lemma_multiset_split3(s3, lo as int, pos as int, hi + 1);
            assert(s3.subrange(lo as int, pos as int) =~= s2.subrange(lo as int, pos as int));
            assert(s3.subrange(pos as int, pos + 1) =~= s2.subrange(pos as int, pos + 1));
            assert(s3.subrange(lo as int, hi + 1).to_multiset() == s2.subrange(
                lo as int,
                hi + 1,
            ).to_multiset());
            assert forall|a: int, b: int| lo <= a <= b <= hi implies s3[a] <= s3[b] by {
                if b < pos {
                    assert(sorted_between(s2, lo as int, pos as int));
                    assert(s3[a] == s2[a] && s3[b] == s2[b]);
                } else if a < pos {
                    assert(s3[a] == s2[a]);
                    assert(s2.subrange(lo as int, pos as int)[a - lo] == s2[a]);
                    assert(s3[a] <= pv);
                    if b > pos {
                        assert(s3.subrange(pos + 1, hi + 1)[b - pos - 1] == s3[b]);
                        assert(s3[b] >= pv);
                    }
                } else if a == pos {
                    if b > pos {
                        assert(s3.subrange(pos + 1, hi + 1)[b - pos - 1] == s3[b]);
                        assert(s3[b] >= pv);
                    }
                } else {
                    assert(sorted_between(s3, pos + 1, hi + 1));
                }
            }
        }
    }
}

/// Partition `arr[lo..=hi]` around its first element: afterwards the
/// pivot value sits at the returned index, nothing smaller lies right of
/// it and nothing greater lies left of it, within the window.
fn partition(arr: &mut Vec<i32>, lo: usize, hi: usize) -> (p: usize)
    requires
        lo < hi < old(arr)@.len(),
    ensures
        lo <= p <= hi,
        final(arr)@.len() == old(arr)@.len(),
        final(arr)@.to_multiset() == old(arr)@.to_multiset(),
        forall|k: int| 0 <= k < old(arr)@.len() && !(lo <= k <= hi) ==> final(arr)@[k] == old(
            arr,
        )@[k],
        forall|k: int| lo <= k < p ==> final(arr)@[k] <= final(arr)@[p as int],
        forall|k: int| p < k <= hi ==> final(arr)@[k] >= final(arr)@[p as int],
    decreases hi - lo,
{
    let pivot = lo;
    let ghost orig = arr@;
    let ghost pv = arr@[lo as int];
    let mut left = lo;
    let mut right = hi;

    while left < right
        invariant
            lo <= left <= right <= hi < arr@.len(),
            arr@.len() == orig.len(),
            arr@.to_multiset() == orig.to_multiset(),
            forall|k: int| 0 <= k < orig.len() && !(lo <= k <= hi) ==> arr@[k] == orig[k],
            arr@[lo as int] == pv,
            pivot == lo,
            arr@[left as int] <= pv,
            forall|k: int| lo <= k < left ==> arr@[k] <= pv,
            forall|k: int| right < k <= hi ==> arr@[k] >= pv,
        decreases right - left,
    {
        while left < right && arr[right] >= arr[pivot]
            invariant
                lo <= left <= right <= hi < arr@.len(),
                arr@.len() == orig.len(),
                arr@.to_multiset() == orig.to_multiset(),
                forall|k: int| 0 <= k < orig.len() && !(lo <= k <= hi) ==> arr@[k] == orig[k],
                arr@[lo as int] == pv,
                pivot == lo,
                arr@[left as int] <= pv,
                forall|k: int| lo <= k < left ==> arr@[k] <= pv,
                forall|k: int| right < k <= hi ==> arr@[k] >= pv,
            decreases right - left,
        {
            right -= 1;
        }
        while left < right && arr[left] <= arr[pivot]
            invariant
                lo <= left <= right <= hi < arr@.len(),
                arr@.len() == orig.len(),
                arr@.to_multiset() == orig.to_multiset(),
                forall|k: int| 0 <= k < orig.len() && !(lo <= k <= hi) ==> arr@[k] == orig[k],
                arr@[lo as int] == pv,
                pivot == lo,
                left == right || arr@[right as int] < pv,
                left == right ==> arr@[left as int] <= pv,
                forall|k: int| lo <= k < left ==> arr@[k] <= pv,
                forall|k: int| right < k <= hi ==> arr@[k] >= pv,
            decreases right - left,
        {
            left += 1;
        }

        if left != right {
            swap_items(arr, left, right);
        }
    }

    swap_items(arr, pivot, left);

    left
}

} // verus!
