//! Insertion sort, in the plain form and in a variant that finds the
//! insertion point by binary search before shifting.

use vstd::prelude::*;

use crate::order::{sorted, sorted_between, swap_items};

verus! {

/// Sort `arr` in place in non-decreasing order. The result is a
/// permutation of the input.
pub fn insertion_sort(arr: &mut Vec<i32>)
    ensures
        sorted(final(arr)@),
        final(arr)@.to_multiset() == old(arr)@.to_multiset(),
        final(arr)@.len() == old(arr)@.len(),
{
    let ghost orig = arr@;
    let mut i: usize = 1;
    while i < arr.len()
        invariant
            1 <= i,
            arr@.to_multiset() == orig.to_multiset(),
            arr@.len() == orig.len(),
            sorted_between(arr@, 0, i as int),
        decreases arr@.len() - i,
    {
        let mut j = i;
        while j > 0 && arr[j - 1] > arr[j]
            invariant
                j <= i < arr@.len(),
                arr@.to_multiset() == orig.to_multiset(),
                arr@.len() == orig.len(),
                sorted_between(arr@, 0, j as int),
                forall|a: int, b: int| j < a <= b <= i ==> arr@[a] <= arr@[b],
                forall|a: int, b: int| 0 <= a < j < b <= i ==> arr@[a] <= arr@[b],
                forall|b: int| j < b <= i ==> arr@[j as int] <= arr@[b],
            decreases j,
        {
            swap_items(arr, j - 1, j);
            j -= 1;
        }
        proof {
            assert(sorted_between(arr@, 0, i + 1));
        }
        i += 1;
    }
    proof {
        if orig.len() == 0 {
            assert(sorted(arr@));
        }
    }
}

/// Sort `arr` in place, locating each element's insertion point in the
/// sorted prefix by binary search, then shifting it into place. The result
/// is sorted and a permutation of the input.
pub fn insertion_sort_binary_search(arr: &mut Vec<i32>)
    ensures
        sorted(final(arr)@),
        final(arr)@.to_multiset() == old(arr)@.to_multiset(),
        final(arr)@.len() == old(arr)@.len(),
{
    let ghost orig = arr@;
    let mut i: usize = 1;
    while i < arr.len()
        invariant
            1 <= i,
            arr@.to_multiset() == orig.to_multiset(),
            arr@.len() == orig.len(),
            sorted_between(arr@, 0, i as int),
        decreases arr@.len() - i,
    {
        let pos = insert_position(arr, i);
        let mut j = i;
        while j > pos
            invariant
                pos <= j <= i < arr@.len(),
                arr@.to_multiset() == orig.to_multiset(),
                arr@.len() == orig.len(),
                sorted_between(arr@, 0, j as int),
                forall|a: int, b: int| j < a <= b <= i ==> arr@[a] <= arr@[b],
                forall|a: int, b: int| 0 <= a < j < b <= i ==> arr@[a] <= arr@[b],
                forall|a: int| pos <= a < j ==> arr@[a] >= arr@[j as int],
                forall|a: int| 0 <= a < pos ==> arr@[a] <= arr@[j as int],
                forall|b: int| j < b <= i ==> arr@[j as int] <= arr@[b],
            decreases j,
        {
            swap_items(arr, j - 1, j);
            j -= 1;
        }
        proof {
            assert(sorted_between(arr@, 0, i + 1));
        }
        i += 1;
    }
    proof {
        if orig.len() == 0 {
            assert(sorted(arr@));
        }
    }
}

/// The position in the sorted prefix `arr[..i]` at which `arr[i]` can be
/// inserted while keeping the prefix sorted, found by binary search.
fn insert_position(arr: &Vec<i32>, i: usize) -> (pos: usize)
    requires
        i < arr@.len(),
        sorted_between(arr@, 0, i as int),
    ensures
        pos <= i,
        forall|a: int| 0 <= a < pos ==> arr@[a] <= arr@[i as int],
        forall|a: int| pos <= a < i ==> arr@[a] >= arr@[i as int],
{
    let key = arr[i];
    let mut left: usize = 0;
    let mut right: usize = i;
    while left < right
        invariant
            left <= right <= i < arr@.len(),
            sorted_between(arr@, 0, i as int),
            key == arr@[i as int],
            forall|a: int| 0 <= a < left ==> arr@[a] <= key,
            forall|a: int| right <= a < i ==> arr@[a] >= key,
        decreases right - left,
    {
        let mid = left + (right - left) / 2;
        if arr[mid] <= key {
            left = mid + 1;
        } else {
            right = mid;
        }
    }
    left
}

} // verus!
