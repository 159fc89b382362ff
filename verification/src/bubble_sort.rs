//! Bubble sort with an early exit on an already-sorted pass.

use vstd::prelude::*;

use crate::order::{sorted, sorted_between, swap_items};

verus! {

/// Sort `arr` in place in non-decreasing order. The result is a
/// permutation of the input.
pub fn bubble_sort(arr: &mut Vec<i32>)
    ensures
        sorted(final(arr)@),
        final(arr)@.to_multiset() == old(arr)@.to_multiset(),
        final(arr)@.len() == old(arr)@.len(),
{
    if arr.len() <= 1 {
        return;
    }

    let size = arr.len();
    let ghost orig = arr@;
    let mut i: usize = 0;
    while i < size - 1
        invariant_except_break
            i < size,
            size == arr@.len(),
            arr@.to_multiset() == orig.to_multiset(),
            sorted_between(arr@, size - i, size as int),
            forall|a: int, b: int| 0 <= a < size - i <= b < size ==> arr@[a] <= arr@[b],
        ensures
            size == arr@.len(),
            arr@.to_multiset() == orig.to_multiset(),
            sorted(arr@),
        decreases size - i,
    {
        let mut swapped = false;
        let mut j: usize = 1;
        while j < size - i
            invariant
                1 <= j <= size - i,
                i < size,
                size == arr@.len(),
                arr@.to_multiset() == orig.to_multiset(),
                sorted_between(arr@, size - i, size as int),
                forall|a: int, b: int| 0 <= a < size - i <= b < size ==> arr@[a] <= arr@[b],
                forall|a: int| 0 <= a < j ==> #[trigger] arr@[a] <= arr@[j - 1],
                !swapped ==> sorted_between(arr@, 0, j as int),
            decreases size - i - j,
        {
            if arr[j - 1] > arr[j] {
                swap_items(arr, j - 1, j);
                swapped = true;
            }
            j += 1;
        }

        if !swapped {
            proof {
                assert(sorted_between(arr@, 0, size - i));
                assert(sorted(arr@));
            }
            break;
        }
        i += 1;
    }
}

} // verus!
