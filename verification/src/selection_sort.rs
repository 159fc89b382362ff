//! Selection sort: repeatedly move the least remaining element to the
//! front of the unsorted region.

use vstd::prelude::*;

use crate::order::{sorted, sorted_between, swap_items};

verus! {

/// Sort `arr` in place in non-decreasing order. The result is a
/// permutation of the input.
pub fn selection_sort(arr: &mut Vec<i32>)
    ensures
        sorted(final(arr)@),
        final(arr)@.to_multiset() == old(arr)@.to_multiset(),
        final(arr)@.len() == old(arr)@.len(),
{
    if arr.len() <= 1 {
        return;
    }

    let size = arr.len();
    let ghost orig = arr@;
    let mut i: usize = 0;
    while i < size - 1
        invariant
            i <= size - 1,
            size == arr@.len(),
            arr@.to_multiset() == orig.to_multiset(),
            sorted_between(arr@, 0, i as int),
            forall|a: int, b: int| 0 <= a < i <= b < size ==> arr@[a] <= arr@[b],
        decreases size - i,
    {
        let mut min_index = i;
        let mut j = i + 1;
        while j < size
            invariant
                i <= min_index < j <= size,
                i < size,
                size == arr@.len(),
                forall|k: int| i <= k < j ==> arr@[min_index as int] <= arr@[k],
            decreases size - j,
        {
            if arr[j] < arr[min_index] {
                min_index = j;
            }
            j += 1;
        }

        if i != min_index {
            swap_items(arr, min_index, i);
        }
        i += 1;
    }
}

} // verus!
