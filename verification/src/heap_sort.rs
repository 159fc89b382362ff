//! Heap sort over a zero-indexed array: build a max-heap in place, then
//! repeatedly swap the root behind the shrinking heap region and sift the
//! new root down.

use vstd::prelude::*;

use crate::order::{
    lemma_multiset_frame, lemma_multiset_le_bound, sorted, sorted_between, swap_items,
};

verus! {

/// Slot `k` lies in the subtree rooted at slot `r` (children of `k` are
/// `2k + 1` and `2k + 2`).
spec fn in_subtree(r: int, k: int) -> bool
    decreases k,
{
    if k <= r || k <= 0 {
        k == r
    } else {
        in_subtree(r, (k - 1) / 2)
    }
}

/// Every max-heap edge whose parent is at least `from` holds below `end`.
spec fn heap_shaped_from(s: Seq<i32>, from: int, end: int) -> bool {
    forall|k: int| 1 <= k < end && (k - 1) / 2 >= from ==> (#[trigger] s[k]) <= s[(k - 1) / 2]
}

/// Everything in the subtree of `r` below `end` is at most `b`.
spec fn subtree_bounded(s: Seq<i32>, r: int, e: int, b: i32) -> bool {
    forall|k: int| #[trigger] in_subtree(r, k) && 0 <= k < e ==> s[k] <= b
}

/// Subtree membership composes.
proof fn lemma_subtree_sub(r: int, c: int, k: int)
    requires
        in_subtree(r, c),
        in_subtree(c, k),
        0 <= r <= c,
    ensures
        in_subtree(r, k),
    decreases k,
{
    if k == c {
    } else {
        lemma_subtree_sub(r, c, (k - 1) / 2);
    }
}

/// In a region whose edges hold above `from`, every subtree value is at
/// most the subtree's top.
proof fn lemma_subtree_le(s: Seq<i32>, from: int, c: int, k: int, end: int)
    requires
        heap_shaped_from(s, from + 1, end),
        from < c,
        in_subtree(c, k),
        0 <= c <= k < end <= s.len(),
    ensures
        s[k] <= s[c],
    decreases k,
{
    if k != c {
        let p = (k - 1) / 2;
        assert(in_subtree(c, p));
        assert(p >= c);
        lemma_subtree_le(s, from, c, p, end);
        assert(s[k] <= s[p]);
    }
}

/// In a fully heap-shaped region the first slot holds a greatest value.
proof fn lemma_heap_root_max(s: Seq<i32>, end: int, k: int)
    requires
        heap_shaped_from(s, 0, end),
        0 <= k < end <= s.len(),
    ensures
        s[k] <= s[0],
    decreases k,
{
    if k > 0 {
        lemma_heap_root_max(s, end, (k - 1) / 2);
        assert(s[k] <= s[(k - 1) / 2]);
    }
}

/// After swapping the root of a subtree with its strictly greater child
/// `largest` and repairing the child's subtree, the whole subtree is
/// heap-shaped again, nothing outside it moved, and any bound on its
/// values survives. `s` is the state before the swap, `u` after it, `f`
/// after the repair.
proof fn lemma_heaplfy_glue(s: Seq<i32>, u: Seq<i32>, f: Seq<i32>, root: int, largest: int, end: int)
    requires
        0 <= root < end <= s.len(),
        u.len() == s.len(),
        f.len() == s.len(),
        largest == 2 * root + 1 || largest == 2 * root + 2,
        largest < end,
        heap_shaped_from(s, root + 1, end),
        s[2 * root + 1] <= s[largest],
        2 * root + 2 < end ==> s[2 * root + 2] <= s[largest],
        s[root] <= s[largest],
        u == s.update(largest, s[root]).update(root, s[largest]),
        forall|k: int| 0 <= k < s.len() && !in_subtree(largest, k) ==> f[k] == u[k],
        heap_shaped_from(f, largest, end),
        forall|b: i32| #[trigger] subtree_bounded(u, largest, end, b) ==> subtree_bounded(
            f,
            largest,
            end,
            b,
        ),
    ensures
        heap_shaped_from(f, root, end),
        forall|k: int| 0 <= k < s.len() && !in_subtree(root, k) ==> f[k] == s[k],
        forall|b: i32| #[trigger] subtree_bounded(s, root, end, b) ==> subtree_bounded(
            f,
            root,
            end,
            b,
        ),
{
    assert(in_subtree(root, root));
    assert(in_subtree(root, largest));
    assert(!in_subtree(largest, root));
    assert(f[root] == u[root]);
    assert(f[root] == s[largest]);
    // the old subtree of `largest` was bounded by its top
    assert(subtree_bounded(u, largest, end, s[largest])) by {
        assert forall|k: int| #[trigger]
            in_subtree(largest, k) && 0 <= k < end implies u[k] <= s[largest] by {
            if k == largest {
                assert(u[k] == s[root]);
            } else {
                assert(u[k] == s[k]);
                lemma_subtree_le(s, root, largest, k, end);
            }
        }
    }
    assert(subtree_bounded(f, largest, end, s[largest]));
    // heap shape from `root`
    assert forall|k: int| 1 <= k < end && (k - 1) / 2 >= root implies (#[trigger] f[k]) <= f[(k - 1)
        / 2] by {
        let p = (k - 1) / 2;
        if p >= largest {
            assert(f[k] <= f[p]);
        } else if k == largest {
            assert(in_subtree(largest, k));
            assert(f[k] <= s[largest]);
        } else {
            assert(!in_subtree(largest, k)) by {
                if in_subtree(largest, k) {
                    assert(in_subtree(largest, p));
                }
            }
            assert(f[k] == u[k]);
            if p == root {
                // k is the root's other child, not preferred at selection
                assert(u[k] == s[k]);
                assert(k == 2 * root + 1 || k == 2 * root + 2);
                assert(s[k] <= s[largest]);
            } else {
                assert(!in_subtree(largest, p)) by {
                    if in_subtree(largest, p) {
                        assert(p >= largest);
                    }
                }
                assert(f[p] == u[p]);
                assert(u[k] == s[k] && u[p] == s[p]);
            }
        }
    }
    // bounds on the whole subtree survive
    assert forall|b: i32| #[trigger]
        subtree_bounded(s, root, end, b) implies subtree_bounded(f, root, end, b) by {
        assert(subtree_bounded(u, largest, end, b)) by {
            assert forall|k: int| #[trigger]
                in_subtree(largest, k) && 0 <= k < end implies u[k] <= b by {
                lemma_subtree_sub(root, largest, k);
                if k == largest {
                    assert(u[k] == s[root]);
                } else {
                    assert(u[k] == s[k]);
                }
            }
        }
        assert(subtree_bounded(f, largest, end, b));
        assert forall|k: int| #[trigger] in_subtree(root, k) && 0 <= k < end implies f[k] <= b by {
            if in_subtree(largest, k) {
            } else {
                assert(f[k] == u[k]);
                if k == root {
                    assert(u[k] == s[largest]);
                } else {
                    assert(u[k] == s[k]);
                }
            }
        }
    }
    // frame: only the subtree of `root` moved
    assert forall|k: int| 0 <= k < s.len() && !in_subtree(root, k) implies f[k] == s[k] by {
        assert(!in_subtree(largest, k)) by {
            if in_subtree(largest, k) {
                lemma_subtree_sub(root, largest, k);
            }
        }
        assert(k != root && k != largest);
    }
}

/// Sift the value at `root` down its subtree until both children are no
/// greater, restoring the heap shape from `root` on. Only the subtree of
/// `root` below `end` is touched, its elements are kept, and any bound on
/// the subtree's values survives.
fn heaplfy(arr: &mut Vec<i32>, root: usize, end: usize)
    requires
        root < end <= old(arr)@.len(),
        heap_shaped_from(old(arr)@, root + 1, end as int),
    ensures
        final(arr)@.len() == old(arr)@.len(),
        final(arr)@.to_multiset() == old(arr)@.to_multiset(),
        forall|k: int| 0 <= k < old(arr)@.len() && !in_subtree(root as int, k) ==> final(arr)@[k]
            == old(arr)@[k],
        forall|k: int| end <= k < old(arr)@.len() ==> final(arr)@[k] == old(arr)@[k],
        heap_shaped_from(final(arr)@, root as int, end as int),
        forall|b: i32| #[trigger] subtree_bounded(old(arr)@, root as int, end as int, b)
            ==> subtree_bounded(final(arr)@, root as int, end as int, b),
    decreases end - root,
{
    let ghost s = arr@;
    let mut largest = root;
    if root < end / 2 {
        let left_child = 2 * root + 1;
        if arr[left_child] > arr[largest] {
            largest = left_child;
        }
        let right_child = left_child + 1;
        if right_child < end && arr[right_child] > arr[largest] {
            largest = right_child;
        }
    }

    if largest != root {
        swap_items(arr, largest, root);
        let ghost u = arr@;
        proof {
            // the subtree edges strictly below `largest` are undisturbed
            assert forall|k: int| 1 <= k < end && (k - 1) / 2 >= largest + 1 implies (
            #[trigger] u[k]) <= u[(k - 1) / 2] by {
                assert(u[k] == s[k] && u[(k - 1) / 2] == s[(k - 1) / 2]);
            }
        }
        heaplfy(arr, largest, end);
        proof {
            lemma_heaplfy_glue(s, u, arr@, root as int, largest as int, end as int);
            assert forall|k: int| end <= k < s.len() implies arr@[k] == s[k] by {
                assert(arr@[k] == u[k]);
                assert(u[k] == s[k]);
            }
        }
    } else {
        proof {
            assert forall|k: int| 1 <= k < end && (k - 1) / 2 >= root implies (#[trigger] arr@[k])
                <= arr@[(k - 1) / 2] by {
                if (k - 1) / 2 == root {
                    assert(k == 2 * root + 1 || k == 2 * root + 2);
                }
            }
        }
    }
}

/// Swapping the heap's root behind the heap region extends the sorted
/// suffix by one and keeps the interior heap edges intact.
proof fn lemma_phase2_swap(before: Seq<i32>, mid: Seq<i32>, i: int, size: int)
    requires
        0 <= i < size == before.len(),
        mid == before.update(0, before[i]).update(i, before[0]),
        heap_shaped_from(before, 0, i + 1),
        sorted_between(before, i + 1, size),
        forall|a: int, b: int| 0 <= a < i + 1 <= b < size ==> before[a] <= before[b],
    ensures
        sorted_between(mid, i, size),
        forall|a: int, b: int| 0 <= a < i <= b < size ==> mid[a] <= mid[b],
        forall|k: int| 1 <= k < i && (k - 1) / 2 >= 1 ==> (#[trigger] mid[k]) <= mid[(k - 1) / 2],
{
    assert forall|k: int| 0 <= k < i + 1 implies (#[trigger] before[k]) <= before[0] by {
        lemma_heap_root_max(before, i + 1, k);
    }
    assert forall|a: int, b: int| 0 <= a < i <= b < size implies mid[a] <= mid[b] by {
        if b == i {
            assert(mid[b] == before[0]);
            if a == 0 {
                assert(mid[a] == before[i]);
            } else {
                assert(mid[a] == before[a]);
            }
        } else {
            assert(mid[b] == before[b]);
            if a == 0 {
                assert(mid[a] == before[i]);
                assert(before[i] <= before[b]);
            } else {
                assert(mid[a] == before[a]);
            }
        }
    }
    assert forall|a: int, b: int| i <= a <= b < size implies mid[a] <= mid[b] by {
        if a == i {
            assert(mid[a] == before[0]);
            if b > i {
                assert(mid[b] == before[b]);
                assert(before[0] <= before[b]);
            }
        } else {
            assert(mid[a] == before[a] && mid[b] == before[b]);
        }
    }
    assert forall|k: int| 1 <= k < i && (k - 1) / 2 >= 1 implies (#[trigger] mid[k]) <= mid[(k - 1)
        / 2] by {
        assert(mid[k] == before[k] && mid[(k - 1) / 2] == before[(k - 1) / 2]);
    }
}

/// Repairing the shrunken heap region leaves the sorted suffix alone and
/// keeps it an upper bound for the region.
proof fn lemma_phase2_repair(mid: Seq<i32>, after: Seq<i32>, i: int, size: int)
    requires
        0 < i < size == mid.len(),
        after.len() == size,
        after.to_multiset() == mid.to_multiset(),
        forall|k: int| i <= k < size ==> after[k] == mid[k],
        sorted_between(mid, i, size),
        forall|a: int, b: int| 0 <= a < i <= b < size ==> mid[a] <= mid[b],
    ensures
        sorted_between(after, i, size),
        forall|a: int, b: int| 0 <= a < i <= b < size ==> after[a] <= after[b],
{
    lemma_multiset_frame(mid, after, 0, i);
    assert forall|a: int, b: int| 0 <= a < i <= b < size implies after[a] <= after[b] by {
        assert(after[b] == mid[b]);
        lemma_multiset_le_bound(mid.subrange(0, i), after.subrange(0, i), mid[b]);
        assert(after.subrange(0, i)[a] == after[a]);
    }
}

/// Sort `arr` in place in non-decreasing order. The result is a
/// permutation of the input.
#[verifier::rlimit(100)]
pub fn heap_sort(arr: &mut Vec<i32>)
    ensures
        sorted(final(arr)@),
        final(arr)@.to_multiset() == old(arr)@.to_multiset(),
        final(arr)@.len() == old(arr)@.len(),
{
    let size = arr.len();
    let ghost orig = arr@;

    let mut i = size / 2;
    while i > 0
        invariant
            i <= size,
            size == arr@.len(),
            arr@.to_multiset() == orig.to_multiset(),
            heap_shaped_from(arr@, i as int, size as int),
        decreases i,
    {
        i -= 1;
        heaplfy(arr, i, size);
    }

    let mut i = size;
    while i > 0
        invariant
            i <= size,
            size == arr@.len(),
            arr@.to_multiset() == orig.to_multiset(),
            heap_shaped_from(arr@, 0, i as int),
            sorted_between(arr@, i as int, size as int),
            forall|a: int, b: int| 0 <= a < i <= b < size ==> arr@[a] <= arr@[b],
        decreases i,
    {
        i -= 1;
        let ghost before = arr@;
        swap_items(arr, 0, i);
        let ghost mid = arr@;
        proof {
            lemma_phase2_swap(before, mid, i as int, size as int);
        }
        if i > 0 {
            heaplfy(arr, 0, i);
            proof {
                lemma_phase2_repair(mid, arr@, i as int, size as int);
            }
        }
    }
    proof {
        if size > 0 {
            assert(sorted_between(arr@, 0, size as int));
        }
        assert(sorted(arr@));
    }
}

} // verus!
