//! A set of integers with constant-time insertion and removal and a
//! uniform-looking random pick: values live in a dense vector, an index
//! table maps each value to its slot, and removal swaps the last value
//! into the vacated slot. The random pick draws its seed from the clock,
//! so nothing is promised about which member comes back — only that it
//! is a member.

use vstd::prelude::*;

verus! {

broadcast use vstd::set::group_set_axioms;

/// Some slot of the index table `m` records value `x` at position `i`.
pub open spec fn has_slot(m: Seq<(i32, usize)>, x: i32, i: int) -> bool {
    exists|j: int| 0 <= j < m.len() && #[trigger] m[j] == (x, i as usize)
}

/// A set with O(1) insert, remove, and random member access.
pub struct RandomizedSet {
    map: Vec<(i32, usize)>,
    vec: Vec<i32>,
}

/// The system clock's instant type, opaque to verification.
#[verifier::external_type_specification]
#[verifier::external_body]
pub struct ExSystemTime(std::time::SystemTime);

/// The clock error type, opaque to verification.
#[verifier::external_type_specification]
#[verifier::external_body]
pub struct ExSystemTimeError(std::time::SystemTimeError);

/// Relies on `std::time::SystemTime::now`: the current instant. Nothing
/// is promised of it — the clock answers what it will.
pub assume_specification[ std::time::SystemTime::now ]() -> std::time::SystemTime;

/// Relies on `std::time::SystemTime::duration_since`: the span since
/// `earlier`, or an error when `earlier` lies ahead. Nothing is promised
/// of either outcome.
pub assume_specification[ std::time::SystemTime::duration_since ](
    t: &std::time::SystemTime,
    earlier: std::time::SystemTime,
) -> Result<core::time::Duration, std::time::SystemTimeError>;

/// Relies on `core::time::Duration::as_nanos`: the span in nanoseconds.
/// Nothing is promised of the value.
pub assume_specification[ core::time::Duration::as_nanos ](d: &core::time::Duration) -> u128;

/// Relies on `std::time::UNIX_EPOCH`: the reference instant the seed is
/// measured from.
#[verifier::external_body]
fn unix_epoch() -> std::time::SystemTime {
    std::time::UNIX_EPOCH
}

/// The nanosecond reading used to seed the pick: some number, zero if
/// the clock sits before the epoch.
fn clock_nanos() -> u128 {
    match std::time::SystemTime::now().duration_since(unix_epoch()) {
        Ok(d) => d.as_nanos(),
        Err(_) => 0,
    }
}

impl View for RandomizedSet {
    type V = Set<i32>;

    closed spec fn view(&self) -> Set<i32> {
        self.vec@.to_set()
    }
}

impl RandomizedSet {
    /// The index table and the value vector mirror one another exactly.
    pub closed spec fn well_formed(self) -> bool {
        &&& self.map@.len() == self.vec@.len()
        &&& forall|a: int, b: int| 0 <= a < b < self.map@.len() ==> (#[trigger] self.map@[a]).0
            != (#[trigger] self.map@[b]).0
        &&& forall|j: int| 0 <= j < self.map@.len() ==> (#[trigger] self.map@[j]).1
            < self.vec@.len() && self.vec@[self.map@[j].1 as int] == self.map@[j].0
        &&& forall|i: int| 0 <= i < self.vec@.len() ==> #[trigger] has_slot(
            self.map@,
            self.vec@[i],
            i,
        )
    }

    /// How many values are present.
    pub closed spec fn len_spec(self) -> nat {
        self.vec@.len()
    }

    /// Create an empty set.
    pub fn new() -> (s: Self)
        ensures
            s.well_formed(),
            s@ == Set::<i32>::empty(),
            s.len_spec() == 0,
    {
        let s = RandomizedSet { map: Vec::new(), vec: Vec::new() };
        proof {
            assert(s.vec@.to_set() =~= Set::<i32>::empty());
        }
        s
    }

    /// The index-table slot of `val`, if present.
    fn find_idx(&self, val: i32) -> (r: Option<usize>)
        ensures
            r matches Some(j) ==> j < self.map@.len() && self.map@[j as int].0 == val,
            r is None ==> forall|j: int| 0 <= j < self.map@.len() ==> (#[trigger] self.map@[j]).0
                != val,
    {
        let mut j: usize = 0;
        while j < self.map.len()
            invariant
                j <= self.map@.len(),
                forall|t: int| 0 <= t < j ==> (#[trigger] self.map@[t]).0 != val,
            decreases self.map@.len() - j,
        {
            if self.map[j].0 == val {
                return Some(j);
            }
            j += 1;
        }
        None
    }

    /// Membership is mirrored between the vector and the index table.
    proof fn lemma_member(self, val: i32)
        requires
            self.well_formed(),
        ensures
            self@.contains(val) <==> exists|j: int|
                0 <= j < self.map@.len() && (#[trigger] self.map@[j]).0 == val,
    {
        if self@.contains(val) {
            assert(self.vec@.contains(val));
            let i = choose|i: int| 0 <= i < self.vec@.len() && self.vec@[i] == val;
            assert(has_slot(self.map@, self.vec@[i], i));
            let j = choose|j: int|
                0 <= j < self.map@.len() && #[trigger] self.map@[j] == (self.vec@[i], i as usize);
            assert(self.map@[j].0 == val);
        }
        if exists|j: int| 0 <= j < self.map@.len() && (#[trigger] self.map@[j]).0 == val {
            let j = choose|j: int| 0 <= j < self.map@.len() && (#[trigger] self.map@[j]).0 == val;
            assert(self.vec@[self.map@[j].1 as int] == val);
            assert(self.vec@.contains(val));
        }
    }

    /// Add `val`; reports whether it was absent.
    pub fn insert(&mut self, val: i32) -> (r: bool)
        requires
            old(self).well_formed(),
        ensures
            final(self).well_formed(),
            r == !old(self)@.contains(val),
            final(self)@ == old(self)@.insert(val),
            r ==> final(self).len_spec() == old(self).len_spec() + 1,
            !r ==> *final(self) == *old(self),
    {
        proof {
            self.lemma_member(val);
        }
        match self.find_idx(val) {
            Some(_) => {
                proof {
                    assert(old(self)@.contains(val));
                    assert(old(self)@.insert(val) =~= old(self)@);
                }
                false
            },
            None => {
                proof {
                    assert(!old(self)@.contains(val));
                }
                let ghost v0 = self.vec@;
                self.vec.push(val);
                self.map.push((val, self.vec.len() - 1));
                proof {
                    assert(self@ =~= old(self)@.insert(val)) by {
                        assert forall|x: i32| self.vec@.contains(x) implies v0.contains(x) || x
                            == val by {
                            let i = choose|i: int| 0 <= i < self.vec@.len() && self.vec@[i] == x;
                            if i < v0.len() {
                                assert(v0[i] == x);
                            }
                        }
                        assert forall|x: i32| v0.contains(x) implies self.vec@.contains(x) by {
                            let i = choose|i: int| 0 <= i < v0.len() && v0[i] == x;
                            assert(self.vec@[i] == x);
                        }
                        assert(self.vec@[self.vec@.len() - 1] == val);
                    }
                    assert(self.well_formed()) by {
                        assert forall|i: int| 0 <= i < self.vec@.len() implies #[trigger] has_slot(
                            self.map@,
                            self.vec@[i],
                            i,
                        ) by {
                            if i < v0.len() {
                                assert(has_slot(old(self).map@, v0[i], i));
                                let j = choose|j: int|
                                    0 <= j < old(self).map@.len() && #[trigger] old(self).map@[j]
                                        == (v0[i], i as usize);
                                assert(self.map@[j] == (self.vec@[i], i as usize));
                            } else {
                                assert(self.map@[self.map@.len() - 1] == (
                                self.vec@[i], i as usize));
                            }
                        }
                    }
                }
                true
            },
        }
    }

    /// Take `val` out; reports whether it was present. The last value is
    /// swapped into the vacated slot.
    pub fn remove(&mut self, val: i32) -> (r: bool)
        requires
            old(self).well_formed(),
        ensures
            final(self).well_formed(),
            r == old(self)@.contains(val),
            final(self)@ == old(self)@.remove(val),
            r ==> final(self).len_spec() == old(self).len_spec() - 1,
            !r ==> *final(self) == *old(self),
    {
        proof {
            self.lemma_member(val);
        }
        match self.find_idx(val) {
            Some(j) => {
                proof {
                    assert(old(self)@.contains(val));
                }
                let index = self.map[j].1;
                let last = self.vec[self.vec.len() - 1];
                let ghost v0 = self.vec@;
                let ghost m0 = self.map@;
                self.vec.set(index, last);
                let jj = match self.find_idx(last) {
                    Some(jj) => jj,
                    None => {
                        proof {
                            assert(has_slot(m0, v0[v0.len() - 1], v0.len() - 1));
                            let i = choose|t: int|
                                0 <= t < m0.len() && #[trigger] m0[t] == (
                            v0[v0.len() - 1], (v0.len() - 1) as usize);
                            assert(self.map@[i].0 == last);
                            assert(false);
                        }
                        0
                    },
                };
                self.map.set(jj, (last, index));
                self.vec.pop();
                self.map.remove(j);
                proof {
                    let vf = self.vec@;
                    let mf = self.map@;
                    // the final vector is the original with `val`'s slot
                    // rewritten to the old last value and the tail dropped
                    assert(vf =~= v0.update(index as int, v0[v0.len() - 1]).drop_last());
                    assert(v0[index as int] == val);
                    assert(self@ =~= old(self)@.remove(val)) by {
                        assert forall|x: i32| vf.contains(x) implies v0.contains(x) && x != val by {
                            let i = choose|i: int| 0 <= i < vf.len() && vf[i] == x;
                            if i == index {
                                assert(v0[v0.len() - 1] == x);
                            } else {
                                assert(v0[i] == x);
                            }
                            // `val` occurs only at its recorded slot
                            if x == val {
                                let i0: int = if i == index {
                                    v0.len() - 1
                                } else {
                                    i
                                };
                                assert(has_slot(m0, v0[i0], i0));
                                let t = choose|t: int|
                                    0 <= t < m0.len() && #[trigger] m0[t] == (v0[i0], i0 as usize);
                                assert(m0[t].0 == val && m0[j as int].0 == val);
                                assert(t == j);
                                assert(false);
                            }
                        }
                        assert forall|x: i32| v0.contains(x) && x != val implies vf.contains(x) by {
                            let i = choose|i: int| 0 <= i < v0.len() && v0[i] == x;
                            if i == v0.len() - 1 {
                                assert(vf[index as int] == x);
                            } else if i == index {
                                assert(v0[index as int] == val);
                                assert(false);
                            } else {
                                assert(vf[i] == x);
                            }
                        }
                    }
                    assert(self.well_formed()) by {
                        assert forall|a: int, b: int| 0 <= a < b < mf.len() implies (
                        #[trigger] mf[a]).0 != (#[trigger] mf[b]).0 by {
                            let a0 = if a < j {
                                a
                            } else {
                                a + 1
                            };
                            let b0 = if b < j {
                                b
                            } else {
                                b + 1
                            };
                            assert(mf[a] == m0.update(jj as int, (last, index))[a0]);
                            assert(mf[b] == m0.update(jj as int, (last, index))[b0]);
                        }
                        assert forall|t: int| 0 <= t < mf.len() implies (#[trigger] mf[t]).1
                            < vf.len() && vf[mf[t].1 as int] == mf[t].0 by {
                            let t0 = if t < j {
                                t
                            } else {
                                t + 1
                            };
                            assert(mf[t] == m0.update(jj as int, (last, index))[t0]);
                            if t0 == jj {
                                assert(mf[t] == (last, index));
                                assert(index < v0.len() - 1 || index == v0.len() - 1);
                                if index == v0.len() - 1 {
                                    assert(m0[jj as int].0 == last && m0[j as int].0 == val);
                                    assert(v0[v0.len() - 1] == last);
                                    assert(false);
                                }
                                assert(vf[index as int] == last);
                            } else {
                                assert(mf[t] == m0[t0]);
                                assert(m0[t0].1 != index || m0[t0].0 == val);
                                if m0[t0].1 == index {
                                    assert(t0 == j);
                                    assert(false);
                                }
                                if m0[t0].1 == v0.len() - 1 {
                                    assert(m0[t0].0 == last);
                                    assert(m0[jj as int].0 == last);
                                    assert(t0 == jj);
                                    assert(false);
                                }
                                assert(vf[m0[t0].1 as int] == v0[m0[t0].1 as int]);
                            }
                        }
                        assert forall|i: int| 0 <= i < vf.len() implies #[trigger] has_slot(
                            mf,
                            vf[i],
                            i,
                        ) by {
                            if i == index {
                                // the swapped-in last value now lives at `index`
                                if jj == j {
                                    assert(has_slot(m0, v0[v0.len() - 1], v0.len() - 1));
                                    let t2 = choose|t2: int|
                                        0 <= t2 < m0.len() && #[trigger] m0[t2] == (
                                    v0[v0.len() - 1], (v0.len() - 1) as usize);
                                    assert(m0[t2].0 == last && m0[j as int].0 == last);
                                    assert(t2 == j);
                                    assert(false);
                                }
                                let t0 = jj as int;
                                let t = if t0 < j {
                                    t0
                                } else {
                                    t0 - 1
                                };
                                assert(mf[t] == (last, index));
                                assert(vf[i] == last);
                            } else {
                                assert(has_slot(m0, v0[i], i));
                                let t0 = choose|t0: int|
                                    0 <= t0 < m0.len() && #[trigger] m0[t0] == (v0[i], i as usize);
                                assert(t0 != j);
                                if t0 == jj {
                                    assert(m0[t0].0 == last);
                                    assert(v0[i] == last);
                                    assert(has_slot(m0, v0[v0.len() - 1], v0.len() - 1));
                                    let t2 = choose|t2: int|
                                        0 <= t2 < m0.len() && #[trigger] m0[t2] == (
                                    v0[v0.len() - 1], (v0.len() - 1) as usize);
                                    assert(m0[t2].0 == last);
                                    assert(t2 == t0);
                                    assert(i == v0.len() - 1);
                                    assert(false);
                                }
                                let t = if t0 < j {
                                    t0
                                } else {
                                    t0 - 1
                                };
                                assert(mf[t] == m0.update(jj as int, (last, index))[t0]);
                                assert(mf[t] == (vf[i], i as usize));
                            }
                        }
                    }
                }
                true
            },
            None => {
                proof {
                    assert(!old(self)@.contains(val));
                    assert(old(self)@.remove(val) =~= old(self)@);
                }
                false
            },
        }
    }

    /// Some member of the set, chosen from a clock-seeded position. Any
    /// member may come back; only membership is promised.
    pub fn get_random(&self) -> (r: i32)
        requires
            self.well_formed(),
            self.len_spec() > 0,
        ensures
            self@.contains(r),
    {
        let mut seed = clock_nanos();
        seed = seed % (self.vec.len() as u128);
        let r = self.vec[seed as usize];
        proof {
            assert(self.vec@.contains(r));
        }
        r
    }
}

} // verus!
