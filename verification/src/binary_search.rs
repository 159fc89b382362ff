//! Binary search over a sorted array, in an iterative and a recursive form.

use vstd::prelude::*;

use crate::order::sorted;

verus! {

/// Search `arr` for `item`. Returns the index of some occurrence, or
/// nothing exactly when `item` is absent.
pub fn binary_search(item: &i32, arr: &Vec<i32>) -> (r: Option<usize>)
    requires
        sorted(arr@),
    ensures
        r matches Some(i) ==> i < arr@.len() && arr@[i as int] == *item,
        r is None ==> forall|i: int| 0 <= i < arr@.len() ==> arr@[i] != *item,
{
    let mut left: usize = 0;
    let mut right: usize = arr.len();

    while left < right
        invariant
            left <= right <= arr@.len(),
            sorted(arr@),
            forall|i: int| 0 <= i < arr@.len() && !(left <= i < right) ==> arr@[i] != *item,
        decreases right - left,
    {
        let mid = left + (right - left) / 2;
        let probe = arr[mid];

        if *item < probe {
            right = mid;
        } else if *item == probe {
            return Some(mid);
        } else {
            left = mid + 1;
        }
    }

    None
}

/// Search `arr` for `target` between `left` (inclusive) and `right`
/// (exclusive). Returns the index of some occurrence in that window, or
/// nothing exactly when the window holds no occurrence.
pub fn binary_search_rec(
    list_of_items: &Vec<i32>,
    target: &i32,
    left: &usize,
    right: &usize,
) -> (r: Option<usize>)
    requires
        sorted(list_of_items@),
        *left <= *right <= list_of_items@.len(),
    ensures
        r matches Some(i) ==> *left <= i < *right && list_of_items@[i as int] == *target,
        r is None ==> forall|i: int| *left <= i < *right ==> list_of_items@[i] != *target,
    decreases *right - *left,
{
    if *left >= *right {
        return None;
    }

    let middle: usize = *left + (*right - *left) / 2;
    let probe = list_of_items[middle];
    if *target < probe {
        binary_search_rec(list_of_items, target, left, &middle)
    } else if *target == probe {
        Some(middle)
    } else {
        let next = middle + 1;
        let r = binary_search_rec(list_of_items, target, &next, right);
        proof {
            if r is None {
                assert forall|i: int| *left <= i < *right implies list_of_items@[i] != *target by {
                    if i <= middle {
                        assert(list_of_items@[i] <= list_of_items@[middle as int]);
                    }
                }
            }
        }
        r
    }
}

} // verus!
