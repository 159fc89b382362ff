//! Shared vocabulary for the ordering-based modules: sortedness of integer
//! sequences, and the element-swap primitive that the in-place algorithms
//! (heap repair, the sorting family, partitioning) are built on.

use vstd::prelude::*;

verus! {

/// A totally ordered element type, with an executable strict comparison.
/// The laws are what the heap policies and the sorting proofs lean on.
pub trait Orderable: Sized + Copy {
    /// The "less than or equal" relation of the type.
    spec fn le_spec(a: Self, b: Self) -> bool;

    /// Any two elements are comparable.
    proof fn lemma_total(a: Self, b: Self)
        ensures
            Self::le_spec(a, b) || Self::le_spec(b, a),
    ;

    /// The relation is transitive.
    proof fn lemma_transitive(a: Self, b: Self, c: Self)
        requires
            Self::le_spec(a, b),
            Self::le_spec(b, c),
        ensures
            Self::le_spec(a, c),
    ;

    /// Decide the strict comparison `self < other`.
    fn lt(&self, other: &Self) -> (r: bool)
        ensures
            r == (Self::le_spec(*self, *other) && !Self::le_spec(*other, *self)),
    ;
}

impl Orderable for i32 {
    open spec fn le_spec(a: i32, b: i32) -> bool {
        a <= b
    }

    proof fn lemma_total(a: i32, b: i32) {
    }

    proof fn lemma_transitive(a: i32, b: i32, c: i32) {
    }

    fn lt(&self, other: &Self) -> (r: bool) {
        *self < *other
    }
}

impl Orderable for u64 {
    open spec fn le_spec(a: u64, b: u64) -> bool {
        a <= b
    }

    proof fn lemma_total(a: u64, b: u64) {
    }

    proof fn lemma_transitive(a: u64, b: u64, c: u64) {
    }

    fn lt(&self, other: &Self) -> (r: bool) {
        *self < *other
    }
}

/// True when `s` is sorted in non-decreasing order.
pub open spec fn sorted(s: Seq<i32>) -> bool {
    forall|i: int, j: int| 0 <= i <= j < s.len() ==> s[i] <= s[j]
}

/// True when `s` is sorted between positions `lo` (inclusive) and `hi` (exclusive).
pub open spec fn sorted_between(s: Seq<i32>, lo: int, hi: int) -> bool {
    forall|i: int, j: int| lo <= i <= j < hi ==> s[i] <= s[j]
}

/// Exchanging two positions of a sequence leaves its multiset of elements alone.
pub proof fn lemma_swap_preserves_multiset<T>(s: Seq<T>, i: int, j: int)
    requires
        0 <= i < s.len(),
        0 <= j < s.len(),
    ensures
        s.update(i, s[j]).update(j, s[i]).to_multiset() == s.to_multiset(),
{
    broadcast use vstd::seq_lib::group_to_multiset_ensures;

    if i == j {
        assert(s.update(i, s[j]).update(j, s[i]) =~= s);
    } else {
        let u = s.update(i, s[j]);
        assert(u[j] == s[j]);
        assert(u.to_multiset() == s.to_multiset().insert(s[j]).remove(s[i]));
        assert(u.update(j, s[i]).to_multiset() == u.to_multiset().insert(s[i]).remove(s[j]));
        assert(u.update(j, s[i]).to_multiset() =~= s.to_multiset());
    }
}

/// A bound on every element survives any rearrangement: if `s` and `t`
/// hold the same elements and every element of `s` is at most `bound`,
/// the same holds of `t`.
pub proof fn lemma_multiset_le_bound(s: Seq<i32>, t: Seq<i32>, bound: i32)
    requires
        s.to_multiset() == t.to_multiset(),
        forall|k: int| 0 <= k < s.len() ==> s[k] <= bound,
    ensures
        forall|k: int| 0 <= k < t.len() ==> t[k] <= bound,
{
    broadcast use vstd::seq_lib::group_to_multiset_ensures;

    assert forall|k: int| 0 <= k < t.len() implies t[k] <= bound by {
        assert(t.contains(t[k]));
        assert(s.to_multiset().count(t[k]) > 0);
        assert(s.contains(t[k]));
        let j = choose|j: int| 0 <= j < s.len() && s[j] == t[k];
        assert(s[j] <= bound);
    }
}

/// The mirror image of `lemma_multiset_le_bound`, for lower bounds.
pub proof fn lemma_multiset_ge_bound(s: Seq<i32>, t: Seq<i32>, bound: i32)
    requires
        s.to_multiset() == t.to_multiset(),
        forall|k: int| 0 <= k < s.len() ==> s[k] >= bound,
    ensures
        forall|k: int| 0 <= k < t.len() ==> t[k] >= bound,
{
    broadcast use vstd::seq_lib::group_to_multiset_ensures;

    assert forall|k: int| 0 <= k < t.len() implies t[k] >= bound by {
        assert(t.contains(t[k]));
        assert(s.to_multiset().count(t[k]) > 0);
        assert(s.contains(t[k]));
        let j = choose|j: int| 0 <= j < s.len() && s[j] == t[k];
        assert(s[j] >= bound);
    }
}

/// A window's elements are unchanged as a multiset whenever the whole
/// sequence's are and everything outside the window is unchanged in place.
pub proof fn lemma_multiset_frame<T>(s: Seq<T>, t: Seq<T>, lo: int, hi: int)
    requires
        s.len() == t.len(),
        0 <= lo <= hi <= s.len(),
        s.to_multiset() == t.to_multiset(),
        forall|k: int| 0 <= k < s.len() && !(lo <= k < hi) ==> s[k] == t[k],
    ensures
        s.subrange(lo, hi).to_multiset() == t.subrange(lo, hi).to_multiset(),
{
    broadcast use vstd::seq_lib::group_to_multiset_ensures;
    broadcast use vstd::multiset::group_multiset_axioms;

    let sl = s.subrange(0, lo);
    let sm = s.subrange(lo, hi);
    let sr = s.subrange(hi, s.len() as int);
    let tl = t.subrange(0, lo);
    let tm = t.subrange(lo, hi);
    let tr = t.subrange(hi, t.len() as int);
    assert(s =~= sl + sm + sr);
    assert(t =~= tl + tm + tr);
    assert(sl =~= tl);
    assert(sr =~= tr);
    vstd::seq_lib::lemma_multiset_commutative(sl + sm, sr);
    vstd::seq_lib::lemma_multiset_commutative(sl, sm);
    vstd::seq_lib::lemma_multiset_commutative(tl + tm, tr);
    vstd::seq_lib::lemma_multiset_commutative(tl, tm);
    assert(sl.to_multiset().add(sm.to_multiset()).add(sr.to_multiset()) == tl.to_multiset().add(
        tm.to_multiset(),
    ).add(tr.to_multiset()));
    assert forall|x: T| #[trigger] sm.to_multiset().count(x) == tm.to_multiset().count(x) by {
        assert(sl.to_multiset().add(sm.to_multiset()).add(sr.to_multiset()).count(x)
            == tl.to_multiset().add(tm.to_multiset()).add(tr.to_multiset()).count(x));
        assert(sl.to_multiset().count(x) == tl.to_multiset().count(x));
        assert(sr.to_multiset().count(x) == tr.to_multiset().count(x));
    }
    assert(sm.to_multiset() =~= tm.to_multiset());
}

/// Splitting a window in two splits its multiset.
pub proof fn lemma_multiset_split2<T>(s: Seq<T>, lo: int, mid: int, hi: int)
    requires
        0 <= lo <= mid <= hi <= s.len(),
    ensures
        s.subrange(lo, hi).to_multiset() == s.subrange(lo, mid).to_multiset().add(
            s.subrange(mid, hi).to_multiset(),
        ),
{
    let a = s.subrange(lo, mid);
    let b = s.subrange(mid, hi);
    assert(s.subrange(lo, hi) =~= a + b);
    vstd::seq_lib::lemma_multiset_commutative(a, b);
}

/// Splitting a window at one interior position splits its multiset.
pub proof fn lemma_multiset_split3<T>(s: Seq<T>, lo: int, mid: int, hi: int)
    requires
        0 <= lo <= mid < hi <= s.len(),
    ensures
        s.subrange(lo, hi).to_multiset() == s.subrange(lo, mid).to_multiset().add(
            s.subrange(mid, mid + 1).to_multiset(),
        ).add(s.subrange(mid + 1, hi).to_multiset()),
{
    let a = s.subrange(lo, mid);
    let b = s.subrange(mid, mid + 1);
    let c = s.subrange(mid + 1, hi);
    assert(s.subrange(lo, hi) =~= a + b + c);
    vstd::seq_lib::lemma_multiset_commutative(a + b, c);
    vstd::seq_lib::lemma_multiset_commutative(a, b);
}

/// Exchange the elements at indices `i` and `j`.
pub fn swap_items<T: Copy>(v: &mut Vec<T>, i: usize, j: usize)
    requires
        i < old(v)@.len(),
        j < old(v)@.len(),
    ensures
        final(v)@ == old(v)@.update(i as int, old(v)@[j as int]).update(
            j as int,
            old(v)@[i as int],
        ),
        final(v)@.to_multiset() == old(v)@.to_multiset(),
        final(v)@.len() == old(v)@.len(),
{
    proof {
        lemma_swap_preserves_multiset(v@, i as int, j as int);
    }
    let a = v[i];
    let b = v[j];
    v.set(i, b);
    v.set(j, a);
}

} // verus!
