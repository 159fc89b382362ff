//! A checked sortedness probe: the runtime counterpart of the `sorted`
//! specification.

use vstd::prelude::*;

use crate::order::{sorted, sorted_between};

verus! {

/// Decide whether `target` is sorted in non-decreasing order.
pub fn test_is_sorted(target: &Vec<i32>) -> (r: bool)
    ensures
        r == sorted(target@),
{
    let mut i: usize = 1;
    while i < target.len()
        invariant
            1 <= i,
            sorted_between(target@, 0, i as int),
        decreases target@.len() - i,
    {
        if target[i - 1] > target[i] {
            proof {
                assert(!sorted(target@));
            }
            return false;
        }
        i += 1;
    }
    true
}

} // verus!
