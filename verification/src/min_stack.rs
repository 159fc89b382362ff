//! A stack that answers its minimum in constant time, by keeping a
//! second stack of running minima beside the values.

use vstd::prelude::*;

verus! {

/// A strictly increasing index sequence increases across any gap.
proof fn lemma_increasing(pos: Seq<int>, j: int, k: int)
    requires
        forall|t: int| 0 <= t < pos.len() - 1 ==> #[trigger] pos[t] < pos[t + 1],
        0 <= j < k < pos.len(),
    ensures
        pos[j] < pos[k],
    decreases k - j,
{
    if j + 1 < k {
        lemma_increasing(pos, j + 1, k);
    }
}

/// A stack of integers with a constant-time minimum query.
pub struct MinStack {
    stack: Vec<i32>,
    min_stack: Vec<i32>,
}

impl View for MinStack {
    type V = Seq<i32>;

    closed spec fn view(&self) -> Seq<i32> {
        self.stack@
    }
}

impl MinStack {
    /// The auxiliary stack holds, bottom to top, the positions where a
    /// new running minimum was pushed; its top is the current minimum.
    pub closed spec fn well_formed(self) -> bool {
        exists|pos: Seq<int>| #[trigger] self.marks(pos)
    }

    /// `pos` are the positions of the auxiliary stack's entries in the
    /// main stack: increasing, value-matching, with everything between
    /// two marks (and above the last) strictly greater than the earlier
    /// mark, and everything below a mark no smaller than it.
    spec fn marks(self, pos: Seq<int>) -> bool {
        let s = self.stack@;
        let m = self.min_stack@;
        &&& pos.len() == m.len()
        &&& forall|j: int| 0 <= j < pos.len() ==> 0 <= #[trigger] pos[j] < s.len()
        &&& (pos.len() > 0 ==> pos[0] == 0)
        &&& forall|j: int| 0 <= j < pos.len() - 1 ==> #[trigger] pos[j] < pos[j + 1]
        &&& forall|j: int| 0 <= j < pos.len() ==> m[j] == s[#[trigger] pos[j]]
        &&& forall|j: int, i: int| 0 <= j < pos.len() && 0 <= i <= #[trigger] pos[j] ==> (
        #[trigger] s[i]) >= m[j]
        &&& forall|j: int, i: int| 0 <= j < pos.len() - 1 && #[trigger] pos[j] < i < pos[j + 1]
            ==> (#[trigger] s[i]) > m[j]
        &&& (m.len() > 0 ==> forall|i: int| pos[pos.len() - 1] < i < s.len() ==> #[trigger] s[i]
            > m[m.len() - 1])
        &&& (m.len() == 0 ==> s.len() == 0)
    }

    /// Create an empty stack.
    pub fn new() -> (st: Self)
        ensures
            st.well_formed(),
            st@ == Seq::<i32>::empty(),
    {
        let st = MinStack { stack: Vec::new(), min_stack: Vec::new() };
        proof {
            let pos = Seq::<int>::empty();
            assert(st.marks(pos));
        }
        st
    }

    /// Push `val` on top.
    #[verifier::rlimit(100)]
    pub fn push(&mut self, val: i32)
        requires
            old(self).well_formed(),
        ensures
            final(self).well_formed(),
            final(self)@ == old(self)@.push(val),
    {
        let ghost pos = choose|pos: Seq<int>| old(self).marks(pos);
        self.stack.push(val);
        let push_min = if self.min_stack.len() == 0 {
            true
        } else {
            let top = self.min_stack[self.min_stack.len() - 1];
            val <= top
        };
        if push_min {
            self.min_stack.push(val);
            proof {
                let pos2 = pos.push(self.stack@.len() - 1);
                assert(self.marks(pos2)) by {
                    assert forall|j: int, i: int|
                        0 <= j < pos2.len() && 0 <= i <= #[trigger] pos2[j] implies (
                    #[trigger] self.stack@[i]) >= self.min_stack@[j] by {
                        if j < pos2.len() - 1 {
                            assert(pos2[j] == pos[j]);
                        } else if i < self.stack@.len() - 1 && pos.len() > 0 {
                            if i <= pos[pos.len() - 1] {
                                assert(old(self).stack@[i] >= old(self).min_stack@[pos.len() - 1]);
                            } else {
                                assert(old(self).stack@[i] > old(self).min_stack@[pos.len() - 1]);
                            }
                        }
                    }
                    assert forall|j: int, i: int|
                        0 <= j < pos2.len() - 1 && #[trigger] pos2[j] < i < pos2[j + 1] implies (
                    #[trigger] self.stack@[i]) > self.min_stack@[j] by {
                        if j < pos2.len() - 2 {
                            assert(pos2[j] == pos[j] && pos2[j + 1] == pos[j + 1]);
                        } else {
                            // between the old last mark and the new one
                            assert(pos2[j] == pos[pos.len() - 1]);
                            assert(old(self).stack@[i] > old(self).min_stack@[pos.len() - 1]);
                        }
                    }
                }
            }
        } else {
            proof {
                assert(self.marks(pos)) by {
                    assert(pos.len() > 0);
                    assert forall|i: int|
                        pos[pos.len() - 1] < i < self.stack@.len() implies #[trigger] self.stack@[i]
                        > self.min_stack@[self.min_stack@.len() - 1] by {
                        if i < self.stack@.len() - 1 {
                            assert(old(self).stack@[i] == self.stack@[i]);
                        }
                    }
                }
            }
        }
    }

    /// Remove the top value; an empty stack stays empty.
    #[verifier::rlimit(100)]
    pub fn pop(&mut self)
        requires
            old(self).well_formed(),
        ensures
            final(self).well_formed(),
            old(self)@.len() == 0 ==> final(self)@ == old(self)@,
            old(self)@.len() > 0 ==> final(self)@ == old(self)@.drop_last(),
    {
        let ghost pos = choose|pos: Seq<int>| old(self).marks(pos);
        match self.stack.pop() {
            Some(val) => {
                proof {
                    assert(pos.len() > 0);
                }
                let top = self.min_stack[self.min_stack.len() - 1];
                if val == top {
                    proof {
                        // the popped slot carried the last mark: anything
                        // above that mark would be strictly greater
                        assert(pos[pos.len() - 1] == old(self).stack@.len() - 1) by {
                            if pos[pos.len() - 1] < old(self).stack@.len() - 1 {
                                assert(old(self).stack@[old(self).stack@.len() - 1] > old(
                                    self,
                                ).min_stack@[pos.len() - 1]);
                            }
                        }
                    }
                    self.min_stack.pop();
                    proof {
                        let pos2 = pos.drop_last();
                        assert(self.marks(pos2)) by {
                            assert forall|j: int| 0 <= j < pos2.len() implies 0 <= #[trigger] pos2[j]
                                < self.stack@.len() by {
                                assert(pos2[j] == pos[j]);
                                lemma_increasing(pos, j, pos.len() - 1);
                            }
                            assert forall|j: int| 0 <= j < pos2.len() - 1 implies #[trigger] pos2[j]
                                < pos2[j + 1] by {
                                assert(pos2[j] == pos[j] && pos2[j + 1] == pos[j + 1]);
                            }
                            assert forall|j: int| 0 <= j < pos2.len() implies self.min_stack@[j]
                                == self.stack@[#[trigger] pos2[j]] by {
                                assert(pos2[j] == pos[j]);
                                lemma_increasing(pos, j, pos.len() - 1);
                                assert(old(self).min_stack@[j] == old(self).stack@[pos[j]]);
                            }
                            assert forall|j: int, i: int|
                                0 <= j < pos2.len() && 0 <= i <= #[trigger] pos2[j] implies (
                            #[trigger] self.stack@[i]) >= self.min_stack@[j] by {
                                assert(pos2[j] == pos[j]);
                                lemma_increasing(pos, j, pos.len() - 1);
                                assert(old(self).stack@[i] >= old(self).min_stack@[j]);
                            }
                            assert forall|j: int, i: int|
                                0 <= j < pos2.len() - 1 && #[trigger] pos2[j] < i < pos2[j + 1]
                                implies (#[trigger] self.stack@[i]) > self.min_stack@[j] by {
                                assert(pos2[j] == pos[j] && pos2[j + 1] == pos[j + 1]);
                                lemma_increasing(pos, j + 1, pos.len() - 1);
                                assert(old(self).stack@[i] > old(self).min_stack@[j]);
                            }
                            if pos2.len() > 0 {
                                assert forall|i: int|
                                    pos2[pos2.len() - 1] < i < self.stack@.len() implies
                                    #[trigger] self.stack@[i] > self.min_stack@[
                                self.min_stack@.len() - 1] by {
                                    assert(pos[pos2.len() - 1] < i < pos[pos.len() - 1]);
                                    assert(old(self).stack@[i] > old(self).min_stack@[pos2.len()
                                        - 1]);
                                }
                            }
                        }
                    }
                } else {
                    proof {
                        assert(self.marks(pos)) by {
                            assert(pos[pos.len() - 1] != old(self).stack@.len() - 1);
                        }
                    }
                }
            },
            None => {
                proof {
                    assert(self.marks(pos));
                }
            },
        }
    }

    /// The top value.
    pub fn top(&self) -> (r: i32)
        requires
            self.well_formed(),
            self@.len() > 0,
        ensures
            r == self@[self@.len() - 1],
    {
        self.stack[self.stack.len() - 1]
    }

    /// The least value on the stack.
    #[verifier::rlimit(100)]
    pub fn get_min(&self) -> (r: i32)
        requires
            self.well_formed(),
            self@.len() > 0,
        ensures
            self@.contains(r),
            forall|i: int| 0 <= i < self@.len() ==> r <= #[trigger] self@[i],
    {
        proof {
            let pos = choose|pos: Seq<int>| self.marks(pos);
            assert(pos.len() > 0);
            assert(self.min_stack@[pos.len() - 1] == self.stack@[pos[pos.len() - 1]]);
            assert(self.stack@.contains(self.min_stack@[pos.len() - 1]));
            assert forall|i: int| 0 <= i < self.stack@.len() implies self.min_stack@[self.min_stack@.len()
                - 1] <= #[trigger] self.stack@[i] by {
                if i <= pos[pos.len() - 1] {
                } else {
                }
            }
        }
        self.min_stack[self.min_stack.len() - 1]
    }
}

} // verus!
