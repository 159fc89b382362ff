//! Merge sort over a singly linked list: split at the midpoint, sort the
//! halves, and merge them front-to-front.

use vstd::prelude::*;

use crate::order::sorted;

verus! {

/// A singly linked list node.
pub struct ListNode {
    /// The node's value.
    pub val: i32,
    /// The rest of the list.
    pub next: Option<Box<ListNode>>,
}

/// The value sequence of a list.
pub open spec fn list_seq(o: Option<Box<ListNode>>) -> Seq<i32>
    decreases o,
{
    match o {
        None => Seq::empty(),
        Some(n) => seq![n.val] + list_seq(n.next),
    }
}

impl ListNode {
    /// A single node.
    fn new(val: i32) -> (r: Self)
        ensures
            r.val == val,
            r.next is None,
    {
        ListNode { next: None, val }
    }
}

/// Putting one value in front adds it to the list's multiset.
proof fn lemma_cons_multiset(v: i32, t: Seq<i32>)
    ensures
        (seq![v] + t).to_multiset() == t.to_multiset().insert(v),
{
    broadcast use vstd::seq_lib::group_to_multiset_ensures;
    broadcast use vstd::multiset::group_multiset_axioms;

    vstd::seq_lib::lemma_multiset_commutative(seq![v], t);
    assert(seq![v] =~= Seq::<i32>::empty().push(v));
    assert((seq![v] + t).to_multiset() =~= t.to_multiset().insert(v));
}

/// The sorting routine's namespace.
pub struct Solution;

impl Solution {
    /// Sort the list in non-decreasing order; the result holds exactly
    /// the input's values.
    pub fn sort_list(head: Option<Box<ListNode>>) -> (r: Option<Box<ListNode>>)
        requires
            list_seq(head).len() <= usize::MAX,
        ensures
            sorted(list_seq(r)),
            list_seq(r).to_multiset() == list_seq(head).to_multiset(),
    {
        proof {
            broadcast use vstd::seq_lib::group_to_multiset_ensures;
        }
        let is_short = match &head {
            None => true,
            Some(node) => node.next.is_none(),
        };
        if is_short {
            proof {
                match &head {
                    Some(node) => {
                        assert(list_seq(node.next) =~= Seq::<i32>::empty());
                        assert(list_seq(head) =~= seq![node.val]);
                        assert(sorted(seq![node.val]));
                    },
                    None => {
                        assert(list_seq(head) =~= Seq::<i32>::empty());
                    },
                }
            }
            return head;
        }
        Self::sort_list_range(head)
    }

    /// Sort a list of at least two nodes by splitting and merging.
    fn sort_list_range(head: Option<Box<ListNode>>) -> (r: Option<Box<ListNode>>)
        requires
            1 <= list_seq(head).len() <= usize::MAX,
        ensures
            sorted(list_seq(r)),
            list_seq(r).to_multiset() == list_seq(head).to_multiset(),
        decreases list_seq(head).len(),
    {
        proof {
            broadcast use vstd::seq_lib::group_to_multiset_ensures;
        }
        let single = match &head {
            None => false,
            Some(node) => node.next.is_none(),
        };
        if single {
            proof {
                match &head {
                    Some(node) => {
                        assert(list_seq(node.next) =~= Seq::<i32>::empty());
                        assert(list_seq(head) =~= seq![node.val]);
                    },
                    None => {},
                }
            }
            return head;
        }
        proof {
            match &head {
                Some(node) => {
                    match &node.next {
                        Some(n2) => {
                            assert(list_seq(node.next) == seq![n2.val] + list_seq(n2.next));
                            assert(list_seq(head).len() >= 2);
                        },
                        None => {},
                    }
                },
                None => {},
            }
        }
        let len = Self::length(&head);
        let ghost s = list_seq(head);
        let (front, back) = Self::split_at(head, len / 2);
        proof {
            assert(s.take(len as int / 2).len() >= 1);
            assert(s.skip(len as int / 2).len() >= 1);
        }
        let list1 = Self::sort_list_range(front);
        let list2 = Self::sort_list_range(back);
        let r = Self::merge_two_list(list1, list2);
        proof {
            vstd::seq_lib::lemma_multiset_commutative(
                s.take(len as int / 2),
                s.skip(len as int / 2),
            );
            assert(s.take(len as int / 2) + s.skip(len as int / 2) =~= s);
        }
        r
    }

    /// The number of nodes.
    fn length(head: &Option<Box<ListNode>>) -> (n: usize)
        requires
            list_seq(*head).len() <= usize::MAX,
        ensures
            n == list_seq(*head).len(),
        decreases *head,
    {
        match head {
            None => 0,
            Some(node) => {
                proof {
                    assert(list_seq(*head).len() == 1 + list_seq(node.next).len());
                }
                1 + Self::length(&node.next)
            },
        }
    }

    /// Detach the first `n` nodes, returning both pieces.
    fn split_at(head: Option<Box<ListNode>>, n: usize) -> (r: (
        Option<Box<ListNode>>,
        Option<Box<ListNode>>,
    ))
        requires
            n <= list_seq(head).len(),
        ensures
            list_seq(r.0) == list_seq(head).take(n as int),
            list_seq(r.1) == list_seq(head).skip(n as int),
        decreases n,
    {
        if n == 0 {
            proof {
                assert(list_seq(head).take(0) =~= Seq::<i32>::empty());
                assert(list_seq(head).skip(0) =~= list_seq(head));
            }
            return (None, head);
        }
        let mut node = match head {
            Some(node) => node,
            None => {
                proof {
                    assert(false);
                }
                Box::new(ListNode::new(0))
            },
        };
        let ghost s = seq![node.val] + list_seq(node.next);
        let rest = node.next.take();
        let (front, back) = Self::split_at(rest, n - 1);
        node.next = front;
        proof {
            assert(list_seq(Some(node)) =~= seq![node.val] + list_seq(rest).take(n - 1));
            assert(list_seq(Some(node)) =~= s.take(n as int));
            assert(list_seq(back) =~= s.skip(n as int));
        }
        (Some(node), back)
    }

    /// Merge two sorted lists into one sorted list holding the values of
    /// both.
    fn merge_two_list(head1: Option<Box<ListNode>>, head2: Option<Box<ListNode>>) -> (r: Option<
        Box<ListNode>,
    >)
        requires
            sorted(list_seq(head1)),
            sorted(list_seq(head2)),
        ensures
            sorted(list_seq(r)),
            list_seq(r).to_multiset() == list_seq(head1).to_multiset().add(
                list_seq(head2).to_multiset(),
            ),
        decreases list_seq(head1).len() + list_seq(head2).len(),
    {
        proof {
            broadcast use vstd::seq_lib::group_to_multiset_ensures;
            broadcast use vstd::multiset::group_multiset_axioms;
        }
        match (head1, head2) {
            (None, h2) => {
                proof {
                    assert(list_seq(None::<Box<ListNode>>) =~= Seq::<i32>::empty());
                }
                h2
            },
            (h1, None) => {
                proof {
                    assert(list_seq(None::<Box<ListNode>>) =~= Seq::<i32>::empty());
                }
                h1
            },
            (Some(n1), Some(n2)) => {
                let ghost s1 = seq![n1.val] + list_seq(n1.next);
                let ghost s2 = seq![n2.val] + list_seq(n2.next);
                if n1.val < n2.val {
                    let mut target = n1;
                    let rest1 = target.next.take();
                    proof {
                        assert(list_seq(rest1) =~= s1.skip(1));
                        assert(sorted(s1.skip(1))) by {
                            assert forall|i: int, j: int|
                                0 <= i <= j < s1.skip(1).len() implies s1.skip(1)[i] <= s1.skip(
                                1,
                            )[j] by {
                                assert(s1.skip(1)[i] == s1[i + 1] && s1.skip(1)[j] == s1[j + 1]);
                            }
                        }
                        assert(list_seq(Some(n2)) =~= s2);
                    }
                    let merged = Self::merge_two_list(rest1, Some(n2));
                    proof {
                        Self::lemma_prepend_sorted(target.val, merged, s1, s2);
                    }
                    target.next = merged;
                    proof {
                        assert(list_seq(Some(target)) =~= seq![target.val] + list_seq(merged));
                        lemma_cons_multiset(target.val, list_seq(merged));
                        assert(s1 =~= seq![target.val] + s1.skip(1));
                        lemma_cons_multiset(target.val, s1.skip(1));
                        assert(list_seq(Some(target)).to_multiset() =~= s1.to_multiset().add(
                            s2.to_multiset(),
                        ));
                        assert(sorted(list_seq(Some(target)))) by {
                            assert(list_seq(Some(target)) =~= seq![target.val] + list_seq(merged));
                        }
                    }
                    Some(target)
                } else {
                    let mut target = n2;
                    let rest2 = target.next.take();
                    proof {
                        assert(list_seq(rest2) =~= s2.skip(1));
                        assert(sorted(s2.skip(1))) by {
                            assert forall|i: int, j: int|
                                0 <= i <= j < s2.skip(1).len() implies s2.skip(1)[i] <= s2.skip(
                                1,
                            )[j] by {
                                assert(s2.skip(1)[i] == s2[i + 1] && s2.skip(1)[j] == s2[j + 1]);
                            }
                        }
                        assert(list_seq(Some(n1)) =~= s1);
                    }
                    let merged = Self::merge_two_list(Some(n1), rest2);
                    proof {
                        Self::lemma_prepend_sorted_right(target.val, merged, s1, s2);
                    }
                    target.next = merged;
                    proof {
                        assert(list_seq(Some(target)) =~= seq![target.val] + list_seq(merged));
                        lemma_cons_multiset(target.val, list_seq(merged));
                        assert(s2 =~= seq![target.val] + s2.skip(1));
                        lemma_cons_multiset(target.val, s2.skip(1));
                        assert(list_seq(Some(target)).to_multiset() =~= s1.to_multiset().add(
                            s2.to_multiset(),
                        ));
                        assert(sorted(list_seq(Some(target)))) by {
                            assert(list_seq(Some(target)) =~= seq![target.val] + list_seq(merged));
                        }
                    }
                    Some(target)
                }
            },
        }
    }

    /// A value below both list heads stays below everything merged from
    /// the first list's tail and the whole second list.
    proof fn lemma_prepend_sorted(v: i32, merged: Option<Box<ListNode>>, s1: Seq<i32>, s2: Seq<i32>)
        requires
            sorted(s1),
            sorted(s2),
            s1.len() >= 1 && s1[0] == v,
            s2.len() >= 1 && v < s2[0],
            sorted(list_seq(merged)),
            list_seq(merged).to_multiset() == s1.skip(1).to_multiset().add(s2.to_multiset()),
        ensures
            sorted(seq![v] + list_seq(merged)),
    {
        broadcast use vstd::seq_lib::group_to_multiset_ensures;
        broadcast use vstd::multiset::group_multiset_axioms;

        let m = list_seq(merged);
        assert forall|i: int| 0 <= i < m.len() implies v <= #[trigger] m[i] by {
            assert(m.contains(m[i]));
            assert(m.to_multiset().count(m[i]) > 0);
            if s1.skip(1).to_multiset().count(m[i]) > 0 {
                assert(s1.skip(1).contains(m[i]));
                let j = choose|j: int| 0 <= j < s1.skip(1).len() && s1.skip(1)[j] == m[i];
                assert(s1[j + 1] == m[i]);
            } else {
                assert(s2.to_multiset().count(m[i]) > 0);
                assert(s2.contains(m[i]));
                let j = choose|j: int| 0 <= j < s2.len() && s2[j] == m[i];
                assert(s2[0] <= s2[j]);
            }
        }
        let w = seq![v] + m;
        assert forall|i: int, j: int| 0 <= i <= j < w.len() implies w[i] <= w[j] by {
            if i == 0 {
                if j > 0 {
                    assert(w[j] == m[j - 1]);
                }
            } else {
                assert(w[i] == m[i - 1] && w[j] == m[j - 1]);
            }
        }
    }

    /// The mirror image, when the second list's head is taken.
    proof fn lemma_prepend_sorted_right(
        v: i32,
        merged: Option<Box<ListNode>>,
        s1: Seq<i32>,
        s2: Seq<i32>,
    )
        requires
            sorted(s1),
            sorted(s2),
            s2.len() >= 1 && s2[0] == v,
            s1.len() >= 1 && v <= s1[0],
            sorted(list_seq(merged)),
            list_seq(merged).to_multiset() == s1.to_multiset().add(s2.skip(1).to_multiset()),
        ensures
            sorted(seq![v] + list_seq(merged)),
    {
        broadcast use vstd::seq_lib::group_to_multiset_ensures;
        broadcast use vstd::multiset::group_multiset_axioms;

        let m = list_seq(merged);
        assert forall|i: int| 0 <= i < m.len() implies v <= #[trigger] m[i] by {
            assert(m.contains(m[i]));
            assert(m.to_multiset().count(m[i]) > 0);
            if s2.skip(1).to_multiset().count(m[i]) > 0 {
                assert(s2.skip(1).contains(m[i]));
                let j = choose|j: int| 0 <= j < s2.skip(1).len() && s2.skip(1)[j] == m[i];
                assert(s2[j + 1] == m[i]);
            } else {
                assert(s1.to_multiset().count(m[i]) > 0);
                assert(s1.contains(m[i]));
                let j = choose|j: int| 0 <= j < s1.len() && s1[j] == m[i];
                assert(s1[0] <= s1[j]);
            }
        }
        let w = seq![v] + m;
        assert forall|i: int, j: int| 0 <= i <= j < w.len() implies w[i] <= w[j] by {
            if i == 0 {
                if j > 0 {
                    assert(w[j] == m[j - 1]);
                }
            } else {
                assert(w[i] == m[i - 1] && w[j] == m[j - 1]);
            }
        }
    }
}

} // verus!
