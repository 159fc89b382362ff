//! Selection of the k-th smallest element by repeated partitioning.

use vstd::prelude::*;

use crate::order::{
    lemma_multiset_frame, lemma_multiset_ge_bound, lemma_multiset_le_bound, lemma_multiset_split3,
    swap_items,
};

verus! {

/// Select the `k`-th smallest element of `input` (zero-based), or nothing
/// exactly when `input` is empty. Afterwards the array is a permutation
/// of the input with the returned element at position `k`, nothing
/// greater before it and nothing smaller after it — which pins it as the
/// `k`-th element of the sorted order.
pub fn quick_select(input: &mut Vec<i32>, k: usize) -> (r: Option<i32>)
    requires
        old(input)@.len() == 0 || k < old(input)@.len(),
    ensures
        final(input)@.len() == old(input)@.len(),
        final(input)@.to_multiset() == old(input)@.to_multiset(),
        r is Some <==> old(input)@.len() > 0,
        r matches Some(m) ==> {
            &&& m == final(input)@[k as int]
            &&& forall|i: int| 0 <= i < k ==> final(input)@[i] <= m
            &&& forall|i: int| k < i < final(input)@.len() ==> final(input)@[i] >= m
        },
{
    if input.len() == 0 {
        return None;
    }

    let ghost pre = input@;
    let hi = input.len() - 1;
    let kth = quick_select_range(input, k, 0, hi);
    proof {
        assert(pre.subrange(0, pre.len() as int) =~= pre);
        assert(input@.subrange(0, input@.len() as int) =~= input@);
    }
    Some(kth)
}

/// Select the element of rank `k` within `input[lo..=hi]`. The window
/// keeps its elements, everything outside it stays in place, and the
/// result lands at position `k` with the window partitioned around it.
fn quick_select_range(input: &mut Vec<i32>, k: usize, lo: usize, hi: usize) -> (r: i32)
    requires
        lo <= k <= hi < old(input)@.len(),
    ensures
        final(input)@.len() == old(input)@.len(),
        forall|j: int| 0 <= j < old(input)@.len() && !(lo <= j <= hi) ==> final(input)@[j] == old(
            input,
        )@[j],
        final(input)@.subrange(lo as int, hi + 1).to_multiset() == old(input)@.subrange(
            lo as int,
            hi + 1,
        ).to_multiset(),
        r == final(input)@[k as int],
        forall|i: int| lo <= i < k ==> final(input)@[i] <= r,
        forall|i: int| k < i <= hi ==> final(input)@[i] >= r,
    decreases hi - lo,
{
    if lo == hi {
        return input[lo];
    }

    let ghost s0 = input@;
    let pivot = partition(input, lo, hi);
    let ghost s1 = input@;
    let ghost pv = s1[pivot as int];
    proof {
        lemma_multiset_frame(s0, s1, lo as int, hi + 1);
    }

    if k == pivot {
        input[pivot]
    } else if k < pivot {
        let r = quick_select_range(input, k, lo, pivot - 1);
        let ghost s2 = input@;
        proof {
            lemma_multiset_le_bound(
                s1.subrange(lo as int, pivot as int),
                s2.subrange(lo as int, pivot as int),
                pv,
            );
            assert(s2.subrange(lo as int, pivot as int)[k - lo] == s2[k as int]);
            assert(r <= pv);
            assert forall|i: int| (k as int) < i <= hi implies s2[i] >= r by {
                if i >= pivot {
                    assert(s2[i] == s1[i]);
                    if i > pivot {
                        assert(s1[i] >= pv);
                    }
                }
            }
            lemma_multiset_split3(s1, lo as int, pivot as int, hi + 1);
            lemma_multiset_split3(s2, lo as int, pivot as int, hi + 1);
            assert(s1.subrange(pivot as int, pivot + 1) =~= s2.subrange(pivot as int, pivot + 1));
            assert(s1.subrange(pivot + 1, hi + 1) =~= s2.subrange(pivot + 1, hi + 1));
            assert(s2.subrange(lo as int, hi + 1).to_multiset() == s1.subrange(
                lo as int,
                hi + 1,
            ).to_multiset());
        }
        r
    } else {
        let r = quick_select_range(input, k, pivot + 1, hi);
        let ghost s2 = input@;
        proof {
            lemma_multiset_ge_bound(
                s1.subrange(pivot + 1, hi + 1),
                s2.subrange(pivot + 1, hi + 1),
                pv,
            );
            assert(s2.subrange(pivot + 1, hi + 1)[k - pivot - 1] == s2[k as int]);
            assert(r >= pv);
            assert forall|i: int| lo <= i < k implies s2[i] <= r by {
                if i <= pivot {
                    assert(s2[i] == s1[i]);
                    if i < pivot {
                        assert(s1[i] <= pv);
                    }
                }
            }
            lemma_multiset_split3(s1, lo as int, pivot as int, hi + 1);
            lemma_multiset_split3(s2, lo as int, pivot as int, hi + 1);
            assert(s1.subrange(lo as int, pivot as int) =~= s2.subrange(lo as int, pivot as int));
            assert(s1.subrange(pivot as int, pivot + 1) =~= s2.subrange(pivot as int, pivot + 1));
            assert(s2.subrange(lo as int, hi + 1).to_multiset() == s1.subrange(
                lo as int,
                hi + 1,
            ).to_multiset());
        }
        r
    }
}

/// Partition `arr[lo..=hi]` around its first element, as in quick sort.
fn partition(arr: &mut Vec<i32>, lo: usize, hi: usize) -> (p: usize)
    requires
        lo < hi < old(arr)@.len(),
    ensures
        lo <= p <= hi,
        final(arr)@.len() == old(arr)@.len(),
        final(arr)@.to_multiset() == old(arr)@.to_multiset(),
        forall|k: int| 0 <= k < old(arr)@.len() && !(lo <= k <= hi) ==> final(arr)@[k] == old(
            arr,
        )@[k],
        forall|k: int| lo <= k < p ==> final(arr)@[k] <= final(arr)@[p as int],
        forall|k: int| p < k <= hi ==> final(arr)@[k] >= final(arr)@[p as int],
    decreases hi - lo,
{
    let pivot = lo;
    let ghost orig = arr@;
    let ghost pv = arr@[lo as int];
    let mut left = lo;
    let mut right = hi;

    while left < right
        invariant
            lo <= left <= right <= hi < arr@.len(),
            arr@.len() == orig.len(),
            arr@.to_multiset() == orig.to_multiset(),
            forall|k: int| 0 <= k < orig.len() && !(lo <= k <= hi) ==> arr@[k] == orig[k],
            arr@[lo as int] == pv,
            pivot == lo,
            arr@[left as int] <= pv,
            forall|k: int| lo <= k < left ==> arr@[k] <= pv,
            forall|k: int| right < k <= hi ==> arr@[k] >= pv,
        decreases right - left,
    {
        while left < right && arr[right] >= arr[pivot]
            invariant
                lo <= left <= right <= hi < arr@.len(),
                arr@.len() == orig.len(),
                arr@.to_multiset() == orig.to_multiset(),
                forall|k: int| 0 <= k < orig.len() && !(lo <= k <= hi) ==> arr@[k] == orig[k],
                arr@[lo as int] == pv,
                pivot == lo,
                arr@[left as int] <= pv,
                forall|k: int| lo <= k < left ==> arr@[k] <= pv,
                forall|k: int| right < k <= hi ==> arr@[k] >= pv,
            decreases right - left,
        {
            right -= 1;
        }
        while left < right && arr[left] <= arr[pivot]
            invariant
                lo <= left <= right <= hi < arr@.len(),
                arr@.len() == orig.len(),
                arr@.to_multiset() == orig.to_multiset(),
                forall|k: int| 0 <= k < orig.len() && !(lo <= k <= hi) ==> arr@[k] == orig[k],
                arr@[lo as int] == pv,
                pivot == lo,
                left == right || arr@[right as int] < pv,
                left == right ==> arr@[left as int] <= pv,
                forall|k: int| lo <= k < left ==> arr@[k] <= pv,
                forall|k: int| right < k <= hi ==> arr@[k] >= pv,
            decreases right - left,
        {
            left += 1;
        }

        if left != right {
            swap_items(arr, left, right);
        }
    }

    swap_items(arr, pivot, left);

    left
}

} // verus!
