//! Shell sort: gapped insertion passes with a halving gap sequence. The
//! final pass runs with gap one, which is a full insertion sort, so the
//! array ends sorted.

use vstd::prelude::*;

use crate::order::{sorted, sorted_between, swap_items};

verus! {

/// Sort `arr` in place in non-decreasing order. The result is a
/// permutation of the input.
pub fn shell_sort(arr: &mut Vec<i32>)
    ensures
        sorted(final(arr)@),
        final(arr)@.to_multiset() == old(arr)@.to_multiset(),
        final(arr)@.len() == old(arr)@.len(),
{
    let ghost orig = arr@;
    let mut sublist_len = arr.len() / 2;

    while sublist_len > 0
        invariant
            arr@.to_multiset() == orig.to_multiset(),
            arr@.len() == orig.len(),
            2 * sublist_len <= arr@.len(),
            sublist_len == 0 ==> sorted(arr@),
        decreases sublist_len,
    {
        let mut i: usize = 0;
        while i < sublist_len
            invariant
                i <= sublist_len,
                1 <= sublist_len,
                2 * sublist_len <= arr@.len(),
                arr@.to_multiset() == orig.to_multiset(),
                arr@.len() == orig.len(),
                sublist_len == 1 && i >= 1 ==> sorted(arr@),
            decreases sublist_len - i,
        {
            insertion(arr, i, sublist_len);
            i += 1;
        }
        sublist_len /= 2;
    }
}

/// One gapped insertion pass: sort the sublist of `arr` that starts at
/// `start` and steps by `gap`. With `start` zero and `gap` one this is a
/// full insertion sort, and the whole array comes out sorted.
fn insertion(arr: &mut Vec<i32>, start: usize, gap: usize)
    requires
        start < gap,
        2 * gap <= old(arr)@.len(),
    ensures
        final(arr)@.to_multiset() == old(arr)@.to_multiset(),
        final(arr)@.len() == old(arr)@.len(),
        start == 0 && gap == 1 ==> sorted(final(arr)@),
{
    let size = arr.len();
    let ghost orig = arr@;
    let ghost g1 = start == 0 && gap == 1;
    let mut i = start + gap;

    while i < size
        invariant
            size == arr@.len(),
            arr@.to_multiset() == orig.to_multiset(),
            start < gap,
            2 * gap <= size,
            start + gap <= i,
            g1 == (start == 0 && gap == 1),
            g1 ==> sorted_between(arr@, 0, i as int),
        decreases size - i,
    {
        let mut j = i;
        while j >= start + gap && arr[j - gap] > arr[j]
            invariant
                size == arr@.len(),
                arr@.to_multiset() == orig.to_multiset(),
                start < gap,
                2 * gap <= size,
                start <= j <= i < size,
                g1 == (start == 0 && gap == 1),
                g1 ==> sorted_between(arr@, 0, j as int),
                g1 ==> forall|a: int, b: int| j < a <= b <= i ==> arr@[a] <= arr@[b],
                g1 ==> forall|a: int, b: int| 0 <= a < j < b <= i ==> arr@[a] <= arr@[b],
                g1 ==> forall|b: int| j < b <= i ==> arr@[j as int] <= arr@[b],
            decreases j,
        {
            swap_items(arr, j - gap, j);
            j -= gap;
        }
        proof {
            if g1 {
                assert(sorted_between(arr@, 0, i + 1));
            }
        }
        if size - i <= gap {
            i = size;
        } else {
            i += gap;
        }
    }
    proof {
        if g1 {
            assert(sorted(arr@));
        }
    }
}

} // verus!
