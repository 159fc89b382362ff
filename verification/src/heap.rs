//! A binary heap with a pluggable extraction order.
//!
//! The backing store is a dense array holding a complete binary tree: in
//! 1-indexed terms the children of position `i` sit at `2i` and `2i + 1`.
//! The order is injected as a comparison policy `better(a, b)`, read "`a`
//! must leave the heap before `b` may": a min-heap supplies `a < b`, a
//! max-heap `a > b`. The heap property — no element is better than its
//! parent — holds after every public operation.

use core::marker::PhantomData;

use vstd::multiset::Multiset;
use vstd::prelude::*;

use crate::order::{swap_items, Orderable};

verus! {

/// Position of the parent of slot `k` of the backing store (slots count from
/// zero, so this is `i / 2` on the 1-indexed tree positions `i = k + 1`).
pub open spec fn parent_of(k: int) -> int {
    (k - 1) / 2
}

/// An extraction policy: `better_spec(a, b)` means `a` must be extracted
/// before `b` may. The two laws make the policy a strict order, which is
/// what the heap needs to promise anything about extraction order.
pub trait Comparator<T>: Sized {
    /// The relation that the executable comparison decides.
    spec fn better_spec(a: T, b: T) -> bool;

    /// A strict preference cannot hold both ways.
    proof fn lemma_asymmetric(a: T, b: T)
        requires
            Self::better_spec(a, b),
        ensures
            !Self::better_spec(b, a),
    ;

    /// "Is not better than" is transitive.
    proof fn lemma_not_better_transitive(a: T, b: T, c: T)
        requires
            !Self::better_spec(b, a),
            !Self::better_spec(c, b),
        ensures
            !Self::better_spec(c, a),
    ;

    /// Decide the preference between two elements.
    fn better(&self, a: &T, b: &T) -> (r: bool)
        ensures
            r == Self::better_spec(*a, *b),
    ;
}

/// Nothing is strictly better than itself: immediate from asymmetry.
pub proof fn lemma_irreflexive<T, C: Comparator<T>>(a: T)
    ensures
        !C::better_spec(a, a),
{
    if C::better_spec(a, a) {
        C::lemma_asymmetric(a, a);
    }
}

/// The heap property: no resident element is better than its parent.
pub open spec fn heap_ordered<T, C: Comparator<T>>(s: Seq<T>) -> bool {
    forall|k: int| 1 <= k < s.len() ==> !C::better_spec(#[trigger] s[k], s[parent_of(k)])
}

/// The heap property, except possibly on the edge from slot `x` up to its
/// parent. This is the state `swim` repairs.
pub open spec fn heap_ordered_except_up<T, C: Comparator<T>>(s: Seq<T>, x: int) -> bool {
    forall|k: int| 1 <= k < s.len() && k != x ==> !C::better_spec(#[trigger] s[k], s[parent_of(k)])
}

/// The heap property, except possibly on the edges from the children of
/// slot `x` up to `x`. This is the state `sink` repairs.
pub open spec fn heap_ordered_except_down<T, C: Comparator<T>>(s: Seq<T>, x: int) -> bool {
    forall|k: int| 1 <= k < s.len() && parent_of(k) != x ==> !C::better_spec(
        #[trigger] s[k],
        s[parent_of(k)],
    )
}

/// The children of slot `x` are no better than the parent of `x`. Both
/// repair loops need this bridge across the possibly-broken slot.
pub open spec fn bridged<T, C: Comparator<T>>(s: Seq<T>, x: int) -> bool {
    x >= 1 ==> forall|k: int| 1 <= k < s.len() && parent_of(k) == x ==> !C::better_spec(
        #[trigger] s[k],
        s[parent_of(x)],
    )
}

/// In a heap-ordered store the root is a best element.
pub proof fn lemma_root_best<T, C: Comparator<T>>(s: Seq<T>, k: int)
    requires
        heap_ordered::<T, C>(s),
        0 <= k < s.len(),
    ensures
        !C::better_spec(s[k], s[0]),
    decreases k,
{
    if k == 0 {
        lemma_irreflexive::<T, C>(s[0]);
    } else {
        let p = parent_of(k);
        lemma_root_best::<T, C>(s, p);
        C::lemma_not_better_transitive(s[0], s[p], s[k]);
    }
}

/// A binary heap over elements of type `T`, ordered by the comparison
/// policy `C`, fixed at construction for the whole lifetime of the heap.
pub struct Heap<T, C: Comparator<T>> {
    count: usize,
    items: Vec<T>,
    comparator: C,
}

impl<T, C: Comparator<T>> View for Heap<T, C> {
    type V = Seq<T>;

    closed spec fn view(&self) -> Seq<T> {
        self.items@
    }
}

impl<T: Copy, C: Comparator<T>> Heap<T, C> {
    /// The structural invariant: the element count is accurate and the
    /// heap property holds of the backing store.
    pub closed spec fn well_formed(self) -> bool {
        &&& self.count == self.items@.len()
        &&& heap_ordered::<T, C>(self.items@)
    }

    /// Every well-formed heap satisfies the heap property.
    pub proof fn lemma_well_formed_ordered(self)
        requires
            self.well_formed(),
        ensures
            heap_ordered::<T, C>(self@),
    {
    }

    /// Create an empty heap ordered by `comparator`.
    pub fn new(comparator: C) -> (h: Self)
        ensures
            h.well_formed(),
            h@ == Seq::<T>::empty(),
    {
        let h = Heap { count: 0, items: Vec::new(), comparator };
        proof {
            assert(h.items@ =~= Seq::<T>::empty());
        }
        h
    }

    /// The number of resident elements.
    pub fn len(&self) -> (n: usize)
        requires
            self.well_formed(),
        ensures
            n == self@.len(),
    {
        self.count
    }

    /// Whether the heap holds no element.
    pub fn is_empty(&self) -> (e: bool)
        requires
            self.well_formed(),
        ensures
            e == (self@.len() == 0),
    {
        self.len() == 0
    }

    /// Insert `value`: append it at the end of the store, then sift it up
    /// until its parent is no worse. Always succeeds.
    pub fn add(&mut self, value: T)
        requires
            old(self).well_formed(),
        ensures
            final(self).well_formed(),
            final(self)@.to_multiset() == old(self)@.to_multiset().insert(value),
            final(self)@.len() == old(self)@.len() + 1,
    {
        proof {
            broadcast use vstd::seq_lib::group_to_multiset_ensures;
        }
        self.items.push(value);
        self.count = self.items.len();
        let idx = self.count;
        proof {
            let s = self.items@;
            assert forall|k: int| 1 <= k < s.len() && k != idx - 1 implies !C::better_spec(
                #[trigger] s[k],
                s[parent_of(k)],
            ) by {
                assert(s[k] == old(self).items@[k]);
                assert(s[parent_of(k)] == old(self).items@[parent_of(k)]);
            }
            assert(heap_ordered_except_up::<T, C>(s, idx - 1));
            // the appended slot is a leaf, so the bridge holds vacuously
            assert forall|k: int| 1 <= k < s.len() && parent_of(k) == idx - 1 implies
                !C::better_spec(#[trigger] s[k], s[parent_of(idx - 1)]) by {
                assert(k >= 2 * (idx - 1) + 1);
                assert(false);
            }
            assert(bridged::<T, C>(s, idx - 1));
        }
        self.swim(idx);
    }

    /// Extract a best element, or nothing if the heap is empty: swap the
    /// root with the last element, remove the last slot, and sift the new
    /// root down until no child is better.
    pub fn pop(&mut self) -> (r: Option<T>)
        requires
            old(self).well_formed(),
        ensures
            final(self).well_formed(),
            r is Some <==> old(self)@.len() > 0,
            old(self)@.len() == 0 ==> final(self)@ == old(self)@,
            r matches Some(m) ==> {
                &&& old(self)@.to_multiset().contains(m)
                &&& final(self)@.to_multiset() == old(self)@.to_multiset().remove(m)
                &&& final(self)@.len() == old(self)@.len() - 1
                &&& forall|x: T| old(self)@.to_multiset().contains(x) ==> !C::better_spec(x, m)
            },
    {
        proof {
            broadcast use vstd::seq_lib::group_to_multiset_ensures;
        }
        if self.count == 0 {
            return None;
        }
        let ghost s0 = self.items@;
        swap_items(&mut self.items, 0, self.count - 1);
        let ghost t = self.items@;
        let m = self.items.pop().unwrap();
        self.count = self.items.len();
        proof {
            assert(m == s0[0]);
            assert(self.items@ =~= t.remove(t.len() - 1));
            assert(self.items@.to_multiset() == t.to_multiset().remove(m));
            assert(self.items@.to_multiset() == s0.to_multiset().remove(m));
            assert forall|x: T| s0.to_multiset().contains(x) implies !C::better_spec(x, m) by {
                let k = choose|k: int| 0 <= k < s0.len() && s0[k] == x;
                lemma_root_best::<T, C>(s0, k);
            }
        }
        if self.count > 0 {
            proof {
                let s = self.items@;
                assert forall|k: int| 1 <= k < s.len() && parent_of(k) != 0 implies !C::better_spec(
                    #[trigger] s[k],
                    s[parent_of(k)],
                ) by {
                    assert(s[k] == s0[k]);
                    assert(s[parent_of(k)] == s0[parent_of(k)]);
                }
                assert(heap_ordered_except_down::<T, C>(s, 0));
            }
            self.sink(1);
        }
        Some(m)
    }

    /// 1-indexed position of the parent of position `idx`.
    fn parent_idx(&self, idx: usize) -> (p: usize)
        ensures
            p == idx / 2,
    {
        idx / 2
    }

    /// 1-indexed position of the left child of position `idx`.
    fn left_child_idx(&self, idx: usize) -> (c: usize)
        requires
            idx <= self.count / 2,
        ensures
            c == 2 * idx,
    {
        idx * 2
    }

    /// 1-indexed position of the right child of position `idx`.
    fn right_child_idx(&self, idx: usize) -> (c: usize)
        requires
            2 * idx < self.count,
        ensures
            c == 2 * idx + 1,
    {
        idx * 2 + 1
    }

    /// Whether position `idx` has at least one child among the `count`
    /// resident positions.
    fn children_present(&self, idx: usize) -> (b: bool)
        requires
            self.count == self.items@.len(),
            idx >= 1,
        ensures
            b == (2 * idx <= self.items@.len()),
    {
        idx <= self.count / 2
    }

    /// The position of the better child of position `idx`: the right child
    /// when it exists and the policy strictly prefers it, else the left.
    fn smallest_child_idx(&self, idx: usize) -> (c: usize)
        requires
            self.count == self.items@.len(),
            1 <= idx,
            2 * idx <= self.count,
        ensures
            c == 2 * idx || c == 2 * idx + 1,
            c <= self.count,
            !C::better_spec(self.items@[2 * idx - 1], self.items@[c - 1]),
            2 * idx + 1 <= self.count ==> !C::better_spec(self.items@[2 * idx], self.items@[c - 1]),
    {
        let left = self.left_child_idx(idx);
        if left < self.count {
            let right = self.right_child_idx(idx);
            let a = self.items[right - 1];
            let b = self.items[left - 1];
            if self.comparator.better(&a, &b) {
                proof {
                    C::lemma_asymmetric(a, b);
                    lemma_irreflexive::<T, C>(a);
                }
                return right;
            }
        }
        proof {
            lemma_irreflexive::<T, C>(self.items@[2 * idx - 1]);
        }
        left
    }

    /// Sift the element at 1-indexed position `idx` up: while the policy
    /// prefers it over its parent, exchange the two and move up.
    fn swim(&mut self, idx: usize)
        requires
            old(self).count == old(self).items@.len(),
            1 <= idx <= old(self).count,
            heap_ordered_except_up::<T, C>(old(self).items@, idx - 1),
            bridged::<T, C>(old(self).items@, idx - 1),
        ensures
            final(self).well_formed(),
            final(self).items@.to_multiset() == old(self).items@.to_multiset(),
            final(self).items@.len() == old(self).items@.len(),
    {
        let mut idx = idx;
        let ghost orig = self.items@;
        while idx > 1
            invariant
                self.count == self.items@.len(),
                1 <= idx <= self.count,
                heap_ordered_except_up::<T, C>(self.items@, idx - 1),
                bridged::<T, C>(self.items@, idx - 1),
                self.items@.to_multiset() == orig.to_multiset(),
                self.items@.len() == orig.len(),
            ensures
                self.count == self.items@.len(),
                1 <= idx <= self.count,
                heap_ordered_except_up::<T, C>(self.items@, idx - 1),
                bridged::<T, C>(self.items@, idx - 1),
                self.items@.to_multiset() == orig.to_multiset(),
                self.items@.len() == orig.len(),
                idx == 1 || !C::better_spec(self.items@[idx - 1], self.items@[parent_of(idx - 1)]),
            decreases idx,
        {
            let parent = self.parent_idx(idx);
            let child_v = self.items[idx - 1];
            let parent_v = self.items[parent - 1];
            proof {
                assert(parent_of(idx - 1) == parent - 1);
            }
            if self.comparator.better(&child_v, &parent_v) {
                let ghost s = self.items@;
                let ghost x = idx - 1;
                let ghost p = parent - 1;
                swap_items(&mut self.items, idx - 1, parent - 1);
                proof {
                    let u = self.items@;
                    C::lemma_asymmetric(s[x], s[p]);
                    assert forall|k: int| 1 <= k < u.len() && k != p implies !C::better_spec(
                        #[trigger] u[k],
                        u[parent_of(k)],
                    ) by {
                        if k == x {
                            // the swapped edge itself: the old parent is now below
                            assert(u[k] == s[p] && u[parent_of(k)] == s[x]);
                        } else if parent_of(k) == x {
                            // a child of the moved slot, against the bridge
                            assert(u[k] == s[k] && u[parent_of(k)] == s[p]);
                        } else if parent_of(k) == p {
                            // the sibling of the moved slot
                            assert(u[k] == s[k] && u[parent_of(k)] == s[x]);
                            C::lemma_not_better_transitive(s[x], s[p], s[k]);
                        } else {
                            assert(u[k] == s[k] && u[parent_of(k)] == s[parent_of(k)]);
                        }
                    }
                    assert(bridged::<T, C>(u, p)) by {
                        if p >= 1 {
                            assert forall|k: int|
                                1 <= k < u.len() && parent_of(k) == p implies !C::better_spec(
                                #[trigger] u[k],
                                u[parent_of(p)],
                            ) by {
                                assert(u[parent_of(p)] == s[parent_of(p)]);
                                if k == x {
                                    assert(u[k] == s[p]);
                                } else {
                                    assert(u[k] == s[k]);
                                    C::lemma_not_better_transitive(s[parent_of(p)], s[p], s[k]);
                                }
                            }
                        }
                    }
                }
                idx = parent;
            } else {
                break;
            }
        }
        proof {
            let s = self.items@;
            assert forall|k: int| 1 <= k < s.len() implies !C::better_spec(
                #[trigger] s[k],
                s[parent_of(k)],
            ) by {
                if k == idx - 1 {
                    assert(idx > 1);
                }
            }
        }
    }

    /// Sift the element at 1-indexed position `idx` down: while some child
    /// is preferred over it, exchange it with the better child and descend.
    fn sink(&mut self, idx: usize)
        requires
            old(self).count == old(self).items@.len(),
            1 <= idx <= old(self).count,
            heap_ordered_except_down::<T, C>(old(self).items@, idx - 1),
            bridged::<T, C>(old(self).items@, idx - 1),
        ensures
            final(self).well_formed(),
            final(self).items@.to_multiset() == old(self).items@.to_multiset(),
            final(self).items@.len() == old(self).items@.len(),
    {
        let mut idx = idx;
        let ghost orig = self.items@;
        while self.children_present(idx)
            invariant
                self.count == self.items@.len(),
                1 <= idx <= self.count,
                heap_ordered_except_down::<T, C>(self.items@, idx - 1),
                bridged::<T, C>(self.items@, idx - 1),
                self.items@.to_multiset() == orig.to_multiset(),
                self.items@.len() == orig.len(),
            ensures
                self.count == self.items@.len(),
                1 <= idx <= self.count,
                heap_ordered_except_down::<T, C>(self.items@, idx - 1),
                bridged::<T, C>(self.items@, idx - 1),
                self.items@.to_multiset() == orig.to_multiset(),
                self.items@.len() == orig.len(),
                forall|k: int|
                    1 <= k < self.items@.len() && parent_of(k) == idx - 1 ==> !C::better_spec(
                        #[trigger] self.items@[k],
                        self.items@[idx - 1],
                    ),
            decreases self.count - idx,
        {
            let smaller_child = self.smallest_child_idx(idx);
            let child_v = self.items[smaller_child - 1];
            let cur_v = self.items[idx - 1];
            if !self.comparator.better(&child_v, &cur_v) {
                proof {
                    let s = self.items@;
                    let x = idx - 1;
                    let c = smaller_child - 1;
                    assert forall|k: int| 1 <= k < s.len() && parent_of(k) == x implies
                        !C::better_spec(#[trigger] s[k], s[x]) by {
                        // k is the chosen child or its sibling; either way it is
                        // no better than the chosen child, which is no better
                        // than the element at x
                        assert(k == 2 * x + 1 || k == 2 * x + 2);
                        if k != c {
                            C::lemma_not_better_transitive(s[x], s[c], s[k]);
                        }
                    }
                }
                break;
            }
            let ghost s = self.items@;
            let ghost x = idx - 1;
            let ghost c = smaller_child - 1;
            swap_items(&mut self.items, idx - 1, smaller_child - 1);
            proof {
                let u = self.items@;
                C::lemma_asymmetric(s[c], s[x]);
                assert(parent_of(c) == x);
                assert forall|k: int| 1 <= k < u.len() && parent_of(k) != c implies !C::better_spec(
                    #[trigger] u[k],
                    u[parent_of(k)],
                ) by {
                    if k == c {
                        // the swapped edge itself
                        assert(u[k] == s[x] && u[parent_of(k)] == s[c]);
                    } else if parent_of(k) == x {
                        // the sibling of the chosen child
                        assert(u[k] == s[k] && u[parent_of(k)] == s[c]);
                        assert(k == 2 * x + 1 || k == 2 * x + 2);
                    } else if k == x {
                        // the moved slot against its own parent, by the bridge
                        assert(u[k] == s[c] && u[parent_of(k)] == s[parent_of(x)]);
                    } else {
                        assert(u[k] == s[k] && u[parent_of(k)] == s[parent_of(k)]);
                    }
                }
                assert(bridged::<T, C>(u, c)) by {
                    assert forall|k: int| 1 <= k < u.len() && parent_of(k) == c implies
                        !C::better_spec(#[trigger] u[k], u[parent_of(c)]) by {
                        // a grandchild of x, against the old heap edge up to c
                        assert(u[parent_of(c)] == s[c]);
                        assert(u[k] == s[k]);
                    }
                }
            }
            idx = smaller_child;
        }
        proof {
            let s = self.items@;
            assert forall|k: int| 1 <= k < s.len() implies !C::better_spec(
                #[trigger] s[k],
                s[parent_of(k)],
            ) by {
                if parent_of(k) == idx - 1 {
                    assert(k == 2 * (idx - 1) + 1 || k == 2 * (idx - 1) + 2);
                }
            }
        }
    }
}

/// The min-first policy: an element is better exactly when it is strictly
/// smaller, so extraction runs from least to greatest.
pub struct MinFirst<T: Orderable> {
    marker: PhantomData<T>,
}

impl<T: Orderable> MinFirst<T> {
    /// The min-first policy.
    pub fn new() -> Self {
        MinFirst { marker: PhantomData }
    }
}

impl<T: Orderable> Comparator<T> for MinFirst<T> {
    open spec fn better_spec(a: T, b: T) -> bool {
        !T::le_spec(b, a)
    }

    proof fn lemma_asymmetric(a: T, b: T) {
        T::lemma_total(a, b);
    }

    proof fn lemma_not_better_transitive(a: T, b: T, c: T) {
        T::lemma_transitive(a, b, c);
    }

    fn better(&self, a: &T, b: &T) -> (r: bool) {
        let r = a.lt(b);
        proof {
            T::lemma_total(*a, *b);
        }
        r
    }
}

/// The max-first policy: an element is better exactly when it is strictly
/// greater, so extraction runs from greatest to least.
pub struct MaxFirst<T: Orderable> {
    marker: PhantomData<T>,
}

impl<T: Orderable> MaxFirst<T> {
    /// The max-first policy.
    pub fn new() -> Self {
        MaxFirst { marker: PhantomData }
    }
}

impl<T: Orderable> Comparator<T> for MaxFirst<T> {
    open spec fn better_spec(a: T, b: T) -> bool {
        !T::le_spec(a, b)
    }

    proof fn lemma_asymmetric(a: T, b: T) {
        T::lemma_total(a, b);
    }

    proof fn lemma_not_better_transitive(a: T, b: T, c: T) {
        T::lemma_transitive(c, b, a);
    }

    fn better(&self, a: &T, b: &T) -> (r: bool) {
        let r = b.lt(a);
        proof {
            T::lemma_total(*a, *b);
        }
        r
    }
}

/// Constructor of max-first heaps.
pub struct MaxHeap;

impl MaxHeap {
    /// Create an empty max-first heap.
    pub fn new<T: Orderable>() -> (h: Heap<T, MaxFirst<T>>)
        ensures
            h.well_formed(),
            h@ == Seq::<T>::empty(),
    {
        Heap::new(MaxFirst::new())
    }
}

/// Constructor of min-first heaps.
pub struct MinHeap;

impl MinHeap {
    /// Create an empty min-first heap.
    pub fn new<T: Orderable>() -> (h: Heap<T, MinFirst<T>>)
        ensures
            h.well_formed(),
            h@ == Seq::<T>::empty(),
    {
        Heap::new(MinFirst::new())
    }
}

impl<T: Orderable> Heap<T, MinFirst<T>> {
    /// Create an empty min-first heap.
    pub fn new_min() -> (h: Self)
        ensures
            h.well_formed(),
            h@ == Seq::<T>::empty(),
    {
        Heap::new(MinFirst::new())
    }
}

impl<T: Orderable> Heap<T, MaxFirst<T>> {
    /// Create an empty max-first heap.
    pub fn new_max() -> (h: Self)
        ensures
            h.well_formed(),
            h@ == Seq::<T>::empty(),
    {
        Heap::new(MaxFirst::new())
    }
}

/// Extraction order: if `r1` was extracted from contents `m` as a best
/// element and `r2` is any element left behind, the policy never prefers
/// `r2` over `r1` — successive extractions never go backwards.
pub proof fn lemma_extraction_order<T, C: Comparator<T>>(m: Multiset<T>, r1: T, r2: T)
    requires
        m.contains(r1),
        forall|x: T| m.contains(x) ==> !C::better_spec(x, r1),
        m.remove(r1).contains(r2),
    ensures
        !C::better_spec(r2, r1),
{
    broadcast use vstd::multiset::group_multiset_axioms;

    assert(m.count(r2) >= m.remove(r1).count(r2));
    assert(m.contains(r2));
}

} // verus!
