//! Merge sort: recursive halving, then a linear merge of the two sorted
//! halves through a pair of scratch buffers.

use vstd::prelude::*;

use crate::order::{lemma_multiset_split2, sorted, sorted_between};

verus! {

/// Sort `arr` in place in non-decreasing order. The result is a
/// permutation of the input.
pub fn merge_sort(arr: &mut Vec<i32>)
    ensures
        sorted(final(arr)@),
        final(arr)@.to_multiset() == old(arr)@.to_multiset(),
        final(arr)@.len() == old(arr)@.len(),
{
    if arr.len() > 1 {
        let hi = arr.len() - 1;
        let ghost pre = arr@;
        merge_sort_range(arr, 0, hi);
        proof {
            assert(pre.subrange(0, pre.len() as int) =~= pre);
            assert(arr@.subrange(0, arr@.len() as int) =~= arr@);
        }
    }
}

/// Sort `arr` between `lo` and `hi` inclusive. Everything outside the
/// window stays in place and the window keeps its elements.
fn merge_sort_range(arr: &mut Vec<i32>, lo: usize, hi: usize)
    requires
        lo <= hi < old(arr)@.len(),
    ensures
        final(arr)@.len() == old(arr)@.len(),
        forall|k: int| 0 <= k < old(arr)@.len() && !(lo <= k <= hi) ==> final(arr)@[k] == old(
            arr,
        )@[k],
        final(arr)@.subrange(lo as int, hi + 1).to_multiset() == old(arr)@.subrange(
            lo as int,
            hi + 1,
        ).to_multiset(),
        sorted_between(final(arr)@, lo as int, hi + 1),
    decreases hi - lo,
{
    if lo < hi {
        let mid = lo + (hi - lo) / 2;
        let ghost s0 = arr@;
        merge_sort_range(arr, lo, mid);
        let ghost s1 = arr@;
        proof {
            lemma_multiset_split2(s0, lo as int, mid + 1, hi + 1);
            lemma_multiset_split2(s1, lo as int, mid + 1, hi + 1);
            assert(s0.subrange(mid + 1, hi + 1) =~= s1.subrange(mid + 1, hi + 1));
        }
        merge_sort_range(arr, mid + 1, hi);
        let ghost s2 = arr@;
        proof {
            lemma_multiset_split2(s2, lo as int, mid + 1, hi + 1);
            assert(s1.subrange(lo as int, mid + 1) =~= s2.subrange(lo as int, mid + 1));
            assert(s2.subrange(lo as int, hi + 1).to_multiset() == s0.subrange(
                lo as int,
                hi + 1,
            ).to_multiset());
        }
        merge_two_array(arr, lo, mid, hi);
    }
}

/// Merge the sorted windows `arr[lo..=mid]` and `arr[mid+1..=hi]` into
/// one sorted window, through two scratch copies.
fn merge_two_array(arr: &mut Vec<i32>, lo: usize, mid: usize, hi: usize)
    requires
        lo <= mid < hi < old(arr)@.len(),
        sorted_between(old(arr)@, lo as int, mid + 1),
        sorted_between(old(arr)@, mid + 1, hi + 1),
    ensures
        final(arr)@.len() == old(arr)@.len(),
        forall|k: int| 0 <= k < old(arr)@.len() && !(lo <= k <= hi) ==> final(arr)@[k] == old(
            arr,
        )@[k],
        final(arr)@.subrange(lo as int, hi + 1).to_multiset() == old(arr)@.subrange(
            lo as int,
            hi + 1,
        ).to_multiset(),
        sorted_between(final(arr)@, lo as int, hi + 1),
{
    proof {
        broadcast use vstd::seq_lib::group_to_multiset_ensures;
    }
    let ghost orig = arr@;
    let n = arr.len();

    let mut arr1: Vec<i32> = Vec::new();
    let mut c = lo;
    while c <= mid
        invariant
            lo <= c <= mid + 1 <= n,
            n == arr@.len(),
            arr@ == orig,
            arr1@ == orig.subrange(lo as int, c as int),
        decreases mid + 1 - c,
    {
        arr1.push(arr[c]);
        proof {
            assert(arr1@ =~= orig.subrange(lo as int, c + 1));
        }
        c += 1;
    }

    let mut arr2: Vec<i32> = Vec::new();
    let mut d = mid + 1;
    while d <= hi
        invariant
            mid + 1 <= d <= hi + 1 <= n,
            n == arr@.len(),
            arr@ == orig,
            arr2@ == orig.subrange(mid + 1, d as int),
        decreases hi + 1 - d,
    {
        arr2.push(arr[d]);
        proof {
            assert(arr2@ =~= orig.subrange(mid + 1, d + 1));
        }
        d += 1;
    }

    let n1 = arr1.len();
    let n2 = arr2.len();
    let mut i: usize = 0;
    let mut j: usize = 0;

    while i < n1 && j < n2
        invariant
            i <= n1,
            j <= n2,
            n1 == mid + 1 - lo,
            n2 == hi - mid,
            lo <= mid < hi < n,
            n == arr@.len(),
            orig.len() == n,
            arr1@ == orig.subrange(lo as int, mid + 1),
            arr2@ == orig.subrange(mid + 1, hi + 1),
            sorted_between(arr1@, 0, n1 as int),
            sorted_between(arr2@, 0, n2 as int),
            forall|k: int| 0 <= k < n && !(lo <= k <= hi) ==> arr@[k] == orig[k],
            arr@.subrange(lo as int, lo + i + j).to_multiset() == arr1@.subrange(
                0,
                i as int,
            ).to_multiset().add(arr2@.subrange(0, j as int).to_multiset()),
            sorted_between(arr@, lo as int, lo + i + j),
            i < n1 && i + j > 0 ==> arr@[lo + i + j - 1] <= arr1@[i as int],
            j < n2 && i + j > 0 ==> arr@[lo + i + j - 1] <= arr2@[j as int],
        decreases n1 + n2 - i - j,
    {
        let ghost before = arr@;
        if arr1[i] < arr2[j] {
            arr.set(lo + i + j, arr1[i]);
            proof {
                merge_step(before, arr@, arr1@, arr2@, lo as int, i as int, j as int, true);
            }
            i += 1;
        } else {
            arr.set(lo + i + j, arr2[j]);
            proof {
                merge_step(before, arr@, arr1@, arr2@, lo as int, i as int, j as int, false);
            }
            j += 1;
        }
    }

    while i < n1
        invariant
            i <= n1,
            j <= n2,
            i == n1 || j == n2,
            n1 == mid + 1 - lo,
            n2 == hi - mid,
            lo <= mid < hi < n,
            n == arr@.len(),
            orig.len() == n,
            arr1@ == orig.subrange(lo as int, mid + 1),
            arr2@ == orig.subrange(mid + 1, hi + 1),
            sorted_between(arr1@, 0, n1 as int),
            sorted_between(arr2@, 0, n2 as int),
            forall|k: int| 0 <= k < n && !(lo <= k <= hi) ==> arr@[k] == orig[k],
            arr@.subrange(lo as int, lo + i + j).to_multiset() == arr1@.subrange(
                0,
                i as int,
            ).to_multiset().add(arr2@.subrange(0, j as int).to_multiset()),
            sorted_between(arr@, lo as int, lo + i + j),
            i < n1 && i + j > 0 ==> arr@[lo + i + j - 1] <= arr1@[i as int],
            j < n2 && i + j > 0 ==> arr@[lo + i + j - 1] <= arr2@[j as int],
        decreases n1 - i,
    {
        let ghost before = arr@;
        arr.set(lo + i + j, arr1[i]);
        proof {
            merge_step(before, arr@, arr1@, arr2@, lo as int, i as int, j as int, true);
        }
        i += 1;
    }

    while j < n2
        invariant
            i == n1,
            j <= n2,
            n1 == mid + 1 - lo,
            n2 == hi - mid,
            lo <= mid < hi < n,
            n == arr@.len(),
            orig.len() == n,
            arr1@ == orig.subrange(lo as int, mid + 1),
            arr2@ == orig.subrange(mid + 1, hi + 1),
            sorted_between(arr2@, 0, n2 as int),
            forall|k: int| 0 <= k < n && !(lo <= k <= hi) ==> arr@[k] == orig[k],
            arr@.subrange(lo as int, lo + i + j).to_multiset() == arr1@.subrange(
                0,
                i as int,
            ).to_multiset().add(arr2@.subrange(0, j as int).to_multiset()),
            sorted_between(arr@, lo as int, lo + i + j),
            j < n2 && i + j > 0 ==> arr@[lo + i + j - 1] <= arr2@[j as int],
        decreases n2 - j,
    {
        let ghost before = arr@;
        arr.set(lo + i + j, arr2[j]);
        proof {
            merge_step(before, arr@, arr1@, arr2@, lo as int, i as int, j as int, false);
        }
        j += 1;
    }

    proof {
        assert(arr1@.subrange(0, n1 as int) =~= arr1@);
        assert(arr2@.subrange(0, n2 as int) =~= arr2@);
        lemma_multiset_split2(orig, lo as int, mid + 1, hi + 1);
        vstd::seq_lib::lemma_multiset_commutative(arr1@, arr2@);
        assert(arr@.subrange(lo as int, hi + 1).to_multiset() == orig.subrange(
            lo as int,
            hi + 1,
        ).to_multiset());
    }
}

/// One step of the merge: writing the next element extends the merged
/// window's multiset by it and keeps the window sorted.
proof fn merge_step(
    before: Seq<i32>,
    after: Seq<i32>,
    arr1: Seq<i32>,
    arr2: Seq<i32>,
    lo: int,
    i: int,
    j: int,
    from_first: bool,
)
    requires
        0 <= lo,
        0 <= i <= arr1.len(),
        0 <= j <= arr2.len(),
        lo + i + j < before.len(),
        from_first ==> i < arr1.len(),
        !from_first ==> j < arr2.len(),
        after == before.update(lo + i + j, if from_first {
            arr1[i]
        } else {
            arr2[j]
        }),
        before.subrange(lo, lo + i + j).to_multiset() == arr1.subrange(0, i).to_multiset().add(
            arr2.subrange(0, j).to_multiset(),
        ),
    ensures
        from_first ==> after.subrange(lo, lo + i + 1 + j).to_multiset() == arr1.subrange(
            0,
            i + 1,
        ).to_multiset().add(arr2.subrange(0, j).to_multiset()),
        !from_first ==> after.subrange(lo, lo + i + j + 1).to_multiset() == arr1.subrange(
            0,
            i,
        ).to_multiset().add(arr2.subrange(0, j + 1).to_multiset()),
        forall|k: int| 0 <= k < before.len() && k != lo + i + j ==> after[k] == before[k],
{
    broadcast use vstd::seq_lib::group_to_multiset_ensures;
    broadcast use vstd::multiset::group_multiset_axioms;

    let x = if from_first {
        arr1[i]
    } else {
        arr2[j]
    };
    assert(after.subrange(lo, lo + i + j + 1) =~= before.subrange(lo, lo + i + j).push(x));
    assert(after.subrange(lo, lo + i + j + 1).to_multiset() == before.subrange(
        lo,
        lo + i + j,
    ).to_multiset().insert(x));
    if from_first {
        assert(arr1.subrange(0, i + 1) =~= arr1.subrange(0, i).push(x));
        assert(arr1.subrange(0, i + 1).to_multiset() == arr1.subrange(0, i).to_multiset().insert(
            x,
        ));
        assert(arr1.subrange(0, i).to_multiset().insert(x).add(arr2.subrange(0, j).to_multiset())
            =~= arr1.subrange(0, i).to_multiset().add(arr2.subrange(0, j).to_multiset()).insert(x));
    } else {
        assert(arr2.subrange(0, j + 1) =~= arr2.subrange(0, j).push(x));
        assert(arr2.subrange(0, j + 1).to_multiset() == arr2.subrange(0, j).to_multiset().insert(
            x,
        ));
        assert(arr1.subrange(0, i).to_multiset().add(arr2.subrange(0, j).to_multiset().insert(x))
            =~= arr1.subrange(0, i).to_multiset().add(arr2.subrange(0, j).to_multiset()).insert(x));
    }
}

} // verus!
