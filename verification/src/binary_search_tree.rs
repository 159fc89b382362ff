//! A binary search tree of integers, allowing duplicates: values
//! strictly smaller than a node go left, all others go right. The tree
//! is modelled by its in-order sequence, which is always sorted.

use vstd::prelude::*;

use crate::order::sorted;

verus! {

/// A binary search tree node; an empty tree is a node with no value and
/// no children.
pub struct BinarySearchTree {
    value: Option<i32>,
    left: Option<Box<BinarySearchTree>>,
    right: Option<Box<BinarySearchTree>>,
}

/// The in-order sequence of an optional subtree.
pub open spec fn opt_seq(o: Option<Box<BinarySearchTree>>) -> Seq<i32>
    decreases o,
{
    match o {
        None => Seq::empty(),
        Some(t) => t.to_seq(),
    }
}

/// The ordering invariant of an optional subtree.
pub open spec fn opt_wf(o: Option<Box<BinarySearchTree>>) -> bool
    decreases o,
{
    match o {
        None => true,
        Some(t) => t.well_formed(),
    }
}

impl BinarySearchTree {
    /// The in-order sequence of values: left subtree, node, right subtree.
    pub closed spec fn to_seq(self) -> Seq<i32>
        decreases self,
    {
        match self.value {
            None => Seq::empty(),
            Some(v) => opt_seq(self.left) + seq![v] + opt_seq(self.right),
        }
    }

    /// The search-tree invariant: smaller values left, others right, and
    /// present children are never empty trees.
    pub closed spec fn well_formed(self) -> bool
        decreases self,
    {
        match self.value {
            None => self.left is None && self.right is None,
            Some(v) => {
                &&& opt_wf(self.left)
                &&& opt_wf(self.right)
                &&& forall|x: i32| opt_seq(self.left).contains(x) ==> x < v
                &&& forall|x: i32| opt_seq(self.right).contains(x) ==> x >= v
                &&& (self.left matches Some(l) ==> l.value is Some)
                &&& (self.right matches Some(r) ==> r.value is Some)
            },
        }
    }

    /// A well-formed tree reads out in non-decreasing order.
    pub proof fn lemma_sorted(self)
        requires
            self.well_formed(),
        ensures
            sorted(self.to_seq()),
        decreases self,
    {
        if self.value matches Some(v) {
            let l = opt_seq(self.left);
            let r = opt_seq(self.right);
            match self.left {
                Some(lt) => lt.lemma_sorted(),
                None => (),
            }
            match self.right {
                Some(rt) => rt.lemma_sorted(),
                None => (),
            }
            let s = self.to_seq();
            assert forall|i: int, j: int| 0 <= i <= j < s.len() implies s[i] <= s[j] by {
                if j < l.len() {
                    assert(s[i] == l[i] && s[j] == l[j]);
                } else if i < l.len() {
                    assert(s[i] == l[i]);
                    assert(l.contains(l[i]));
                    if j > l.len() {
                        assert(s[j] == r[j - l.len() - 1]);
                        assert(r.contains(r[j - l.len() - 1]));
                    }
                } else if i == l.len() {
                    if j > l.len() {
                        assert(s[j] == r[j - l.len() - 1]);
                        assert(r.contains(r[j - l.len() - 1]));
                    }
                } else {
                    assert(s[i] == r[i - l.len() - 1] && s[j] == r[j - l.len() - 1]);
                }
            }
        }
    }

    /// Create a new, empty tree.
    pub fn new() -> (t: BinarySearchTree)
        ensures
            t.well_formed(),
            t.to_seq() == Seq::<i32>::empty(),
    {
        BinarySearchTree { value: None, left: None, right: None }
    }

    /// Whether `value` occurs in the tree.
    pub fn search(&self, value: &i32) -> (r: bool)
        requires
            self.well_formed(),
        ensures
            r == self.to_seq().contains(*value),
        decreases *self,
    {
        match &self.value {
            Some(key) => {
                let ghost s = self.to_seq();
                let ghost l = opt_seq(self.left);
                let ghost rr = opt_seq(self.right);
                proof {
                    assert(s[l.len() as int] == *key);
                    assert forall|x: i32| l.contains(x) implies s.contains(x) by {
                        let i = choose|i: int| 0 <= i < l.len() && l[i] == x;
                        assert(s[i] == x);
                    }
                    assert forall|x: i32| rr.contains(x) implies s.contains(x) by {
                        let i = choose|i: int| 0 <= i < rr.len() && rr[i] == x;
                        assert(s[l.len() + 1 + i] == x);
                    }
                    assert forall|x: i32| s.contains(x) implies l.contains(x) || x == *key
                        || rr.contains(x) by {
                        let i = choose|i: int| 0 <= i < s.len() && s[i] == x;
                        if i < l.len() {
                            assert(l[i] == x);
                        } else if i > l.len() {
                            assert(rr[i - l.len() - 1] == x);
                        }
                    }
                }
                if *key == *value {
                    proof {
                        assert(s.contains(*value));
                    }
                    true
                } else if *key > *value {
                    match &self.left {
                        Some(node) => node.search(value),
                        None => false,
                    }
                } else {
                    match &self.right {
                        Some(node) => node.search(value),
                        None => false,
                    }
                }
            },
            None => false,
        }
    }

    /// Insert `value` at its ordered position; duplicates are kept.
    pub fn insert(&mut self, value: i32)
        requires
            old(self).well_formed(),
        ensures
            final(self).well_formed(),
            final(self).to_seq().to_multiset() == old(self).to_seq().to_multiset().insert(value),
            final(self).to_seq().len() == old(self).to_seq().len() + 1,
        decreases *old(self),
    {
        proof {
            broadcast use vstd::seq_lib::group_to_multiset_ensures;
            broadcast use vstd::multiset::group_multiset_axioms;
        }
        if self.value.is_none() {
            self.value = Some(value);
            proof {
                assert(self.to_seq() =~= seq![value]);
                assert(self.to_seq() =~= Seq::<i32>::empty().push(value));
                assert(old(self).to_seq() =~= Seq::<i32>::empty());
            }
        } else {
            let ghost key0 = self.value.unwrap();
            let ghost l0 = opt_seq(self.left);
            let ghost r0 = opt_seq(self.right);
            proof {
                vstd::seq_lib::lemma_multiset_commutative(l0 + seq![key0], r0);
                vstd::seq_lib::lemma_multiset_commutative(l0, seq![key0]);
            }
            let go_left = match &self.value {
                Some(key) => value < *key,
                None => false,
            };
            if go_left {
                match &mut self.left {
                    Some(node) => {
                        node.insert(value);
                    },
                    None => {
                        let node = BinarySearchTree { value: Some(value), left: None, right: None };
                        proof {
                            assert(node.to_seq() =~= seq![value]);
                            assert(node.to_seq() =~= Seq::<i32>::empty().push(value));
                        }
                        self.left = Some(Box::new(node));
                    },
                }
            } else {
                match &mut self.right {
                    Some(node) => {
                        node.insert(value);
                    },
                    None => {
                        let node = BinarySearchTree { value: Some(value), left: None, right: None };
                        proof {
                            assert(node.to_seq() =~= seq![value]);
                            assert(node.to_seq() =~= Seq::<i32>::empty().push(value));
                        }
                        self.right = Some(Box::new(node));
                    },
                }
            }
            proof {
                let l1 = opt_seq(self.left);
                let r1 = opt_seq(self.right);
                vstd::seq_lib::lemma_multiset_commutative(l1 + seq![key0], r1);
                vstd::seq_lib::lemma_multiset_commutative(l1, seq![key0]);
                if go_left {
                    assert(l1.to_multiset() == l0.to_multiset().insert(value));
                    assert forall|x: i32| l1.contains(x) implies x < key0 by {
                        assert(l1.to_multiset().count(x) > 0);
                        if x != value {
                            assert(l0.to_multiset().count(x) > 0);
                            assert(l0.contains(x));
                        }
                    }
                    assert(self.to_seq().to_multiset() =~= old(self).to_seq().to_multiset().insert(
                        value,
                    ));
                } else {
                    assert(r1.to_multiset() == r0.to_multiset().insert(value));
                    assert forall|x: i32| r1.contains(x) implies x >= key0 by {
                        assert(r1.to_multiset().count(x) > 0);
                        if x != value {
                            assert(r0.to_multiset().count(x) > 0);
                            assert(r0.contains(x));
                        }
                    }
                    assert(self.to_seq().to_multiset() =~= old(self).to_seq().to_multiset().insert(
                        value,
                    ));
                }
                assert(opt_wf(self.left));
                assert(opt_wf(self.right));
                assert(self.left matches Some(l) ==> l.value is Some) by {
                    match self.left {
                        Some(l) => {
                            assert(l.to_seq().len() > 0);
                            if l.value is None {
                                assert(l.to_seq() =~= Seq::<i32>::empty());
                            }
                        },
                        None => (),
                    }
                }
                assert(self.right matches Some(r) ==> r.value is Some) by {
                    match self.right {
                        Some(r) => {
                            assert(r.to_seq().len() > 0);
                            if r.value is None {
                                assert(r.to_seq() =~= Seq::<i32>::empty());
                            }
                        },
                        None => (),
                    }
                }
                assert(self.well_formed());
            }
        }
    }

    /// The smallest value, or nothing when the tree is empty.
    pub fn minimum(&self) -> (r: Option<i32>)
        requires
            self.well_formed(),
        ensures
            r is None <==> self.to_seq().len() == 0,
            r matches Some(m) ==> self.to_seq().len() > 0 && m == self.to_seq()[0],
        decreases *self,
    {
        match &self.left {
            Some(node) => {
                let r = node.minimum();
                proof {
                    assert(self.to_seq()[0] == opt_seq(self.left)[0]);
                }
                r
            },
            None => match &self.value {
                Some(value) => Some(*value),
                None => None,
            },
        }
    }

    /// The largest value, or nothing when the tree is empty.
    pub fn maximum(&self) -> (r: Option<i32>)
        requires
            self.well_formed(),
        ensures
            r is None <==> self.to_seq().len() == 0,
            r matches Some(m) ==> self.to_seq().len() > 0 && m == self.to_seq()[self.to_seq().len()
                - 1],
        decreases *self,
    {
        match &self.right {
            Some(node) => {
                let r = node.maximum();
                proof {
                    let s = self.to_seq();
                    let rs = opt_seq(self.right);
                    assert(s[s.len() - 1] == rs[rs.len() - 1]);
                }
                r
            },
            None => match &self.value {
                Some(value) => Some(*value),
                None => None,
            },
        }
    }

    /// The largest value not above `value`, or nothing when every value
    /// lies above it.
    pub fn floor(&self, value: &i32) -> (r: Option<i32>)
        requires
            self.well_formed(),
        ensures
            r is None ==> forall|x: i32| self.to_seq().contains(x) ==> x > *value,
            r matches Some(m) ==> self.to_seq().contains(m) && m <= *value && forall|x: i32|
                self.to_seq().contains(x) && x <= *value ==> x <= m,
        decreases *self,
    {
        match &self.value {
            Some(key) => {
                let ghost s = self.to_seq();
                let ghost l = opt_seq(self.left);
                let ghost rr = opt_seq(self.right);
                proof {
                    self.lemma_split();
                }
                if *key > *value {
                    match &self.left {
                        Some(node) => {
                            let res = node.floor(value);
                            proof {
                                match res {
                                    Some(m) => {
                                        assert(node.to_seq().contains(m));
                                        assert(s.contains(m));
                                        assert forall|x: i32|
                                            s.contains(x) && x <= *value implies x <= m by {
                                            if l.contains(x) {
                                                assert(node.to_seq().contains(x));
                                            }
                                        }
                                    },
                                    None => {
                                        assert forall|x: i32| s.contains(x) implies x > *value by {
                                            if l.contains(x) {
                                                assert(node.to_seq().contains(x));
                                            }
                                        }
                                    },
                                }
                            }
                            res
                        },
                        None => {
                            proof {
                                assert forall|x: i32| s.contains(x) implies x > *value by {
                                    assert(!l.contains(x));
                                }
                            }
                            None
                        },
                    }
                } else if *key < *value {
                    let res = match &self.right {
                        Some(node) => {
                            let res = node.floor(value);
                            proof {
                                match res {
                                    Some(m) => {
                                        assert(node.to_seq().contains(m));
                                        assert(rr.contains(m));
                                        assert(s.contains(m));
                                        assert forall|x: i32|
                                            s.contains(x) && x <= *value implies x <= m by {
                                            if rr.contains(x) {
                                                assert(node.to_seq().contains(x));
                                            } else {
                                                assert(x <= *key);
                                                assert(*key <= m);
                                            }
                                        }
                                    },
                                    None => {
                                        assert forall|x: i32|
                                            s.contains(x) && x <= *value implies x <= *key by {
                                            if rr.contains(x) {
                                                assert(node.to_seq().contains(x));
                                            }
                                        }
                                    },
                                }
                            }
                            res
                        },
                        None => {
                            proof {
                                assert forall|x: i32|
                                    s.contains(x) && x <= *value implies x <= *key by {
                                    assert(!rr.contains(x));
                                }
                            }
                            None
                        },
                    };
                    match res {
                        Some(m) => Some(m),
                        None => {
                            proof {
                                assert(s.contains(*key));
                            }
                            Some(*key)
                        },
                    }
                } else {
                    proof {
                        assert(s.contains(*key));
                    }
                    Some(*key)
                }
            },
            None => None,
        }
    }

    /// The smallest value not below `value`, or nothing when every value
    /// lies below it.
    pub fn ceil(&self, value: &i32) -> (r: Option<i32>)
        requires
            self.well_formed(),
        ensures
            r is None ==> forall|x: i32| self.to_seq().contains(x) ==> x < *value,
            r matches Some(m) ==> self.to_seq().contains(m) && m >= *value && forall|x: i32|
                self.to_seq().contains(x) && x >= *value ==> x >= m,
        decreases *self,
    {
        match &self.value {
            Some(key) => {
                let ghost s = self.to_seq();
                let ghost l = opt_seq(self.left);
                let ghost rr = opt_seq(self.right);
                proof {
                    self.lemma_split();
                }
                if *key < *value {
                    match &self.right {
                        Some(node) => {
                            let res = node.ceil(value);
                            proof {
                                match res {
                                    Some(m) => {
                                        assert(node.to_seq().contains(m));
                                        assert(s.contains(m));
                                        assert forall|x: i32|
                                            s.contains(x) && x >= *value implies x >= m by {
                                            if rr.contains(x) {
                                                assert(node.to_seq().contains(x));
                                            }
                                        }
                                    },
                                    None => {
                                        assert forall|x: i32| s.contains(x) implies x < *value by {
                                            if rr.contains(x) {
                                                assert(node.to_seq().contains(x));
                                            }
                                        }
                                    },
                                }
                            }
                            res
                        },
                        None => {
                            proof {
                                assert forall|x: i32| s.contains(x) implies x < *value by {
                                    assert(!rr.contains(x));
                                }
                            }
                            None
                        },
                    }
                } else if *key > *value {
                    let res = match &self.left {
                        Some(node) => {
                            let res = node.ceil(value);
                            proof {
                                match res {
                                    Some(m) => {
                                        assert(node.to_seq().contains(m));
                                        assert(l.contains(m));
                                        assert(s.contains(m));
                                        assert forall|x: i32|
                                            s.contains(x) && x >= *value implies x >= m by {
                                            if l.contains(x) {
                                                assert(node.to_seq().contains(x));
                                            } else {
                                                assert(x >= *key);
                                                assert(*key >= m);
                                            }
                                        }
                                    },
                                    None => {
                                        assert forall|x: i32|
                                            s.contains(x) && x >= *value implies x >= *key by {
                                            if l.contains(x) {
                                                assert(node.to_seq().contains(x));
                                            }
                                        }
                                    },
                                }
                            }
                            res
                        },
                        None => {
                            proof {
                                assert forall|x: i32|
                                    s.contains(x) && x >= *value implies x >= *key by {
                                    assert(!l.contains(x));
                                }
                            }
                            None
                        },
                    };
                    match res {
                        Some(m) => Some(m),
                        None => {
                            proof {
                                assert(s.contains(*key));
                            }
                            Some(*key)
                        },
                    }
                } else {
                    proof {
                        assert(s.contains(*key));
                    }
                    Some(*key)
                }
            },
            None => None,
        }
    }

    /// How a node's sequence splits into left part, key, right part.
    proof fn lemma_split(self)
        requires
            self.value is Some,
        ensures
            ({
                let s = self.to_seq();
                let l = opt_seq(self.left);
                let r = opt_seq(self.right);
                let v = self.value.unwrap();
                &&& s.len() == l.len() + 1 + r.len()
                &&& s[l.len() as int] == v
                &&& forall|x: i32| #[trigger] s.contains(x) <==> (l.contains(x) || x == v
                    || r.contains(x))
            }),
    {
        let s = self.to_seq();
        let l = opt_seq(self.left);
        let r = opt_seq(self.right);
        let v = self.value.unwrap();
        assert forall|x: i32| #[trigger] s.contains(x) implies (l.contains(x) || x == v
            || r.contains(x)) by {
            let i = choose|i: int| 0 <= i < s.len() && s[i] == x;
            if i < l.len() {
                assert(l[i] == x);
            } else if i > l.len() {
                assert(r[i - l.len() - 1] == x);
            }
        }
        assert forall|x: i32| (l.contains(x) || x == v || r.contains(x)) implies #[trigger]
            s.contains(x) by {
            if l.contains(x) {
                let i = choose|i: int| 0 <= i < l.len() && l[i] == x;
                assert(s[i] == x);
            } else if x == v {
                assert(s[l.len() as int] == x);
            } else {
                let i = choose|i: int| 0 <= i < r.len() && r[i] == x;
                assert(s[l.len() + 1 + i] == x);
            }
        }
    }

    /// The values in order, as a vector.
    pub fn iter(&self) -> (r: Vec<i32>)
        requires
            self.well_formed(),
        ensures
            r@ == self.to_seq(),
    {
        let mut out: Vec<i32> = Vec::new();
        self.append_in_order(&mut out);
        proof {
            assert(out@ =~= self.to_seq());
        }
        out
    }

    /// Append this tree's values in order to `out`.
    fn append_in_order(&self, out: &mut Vec<i32>)
        requires
            self.well_formed(),
        ensures
            final(out)@ == old(out)@ + self.to_seq(),
        decreases *self,
    {
        match &self.value {
            Some(key) => {
                match &self.left {
                    Some(node) => node.append_in_order(out),
                    None => (),
                }
                out.push(*key);
                match &self.right {
                    Some(node) => node.append_in_order(out),
                    None => (),
                }
                proof {
                    assert(out@ =~= old(out)@ + self.to_seq());
                }
            },
            None => {
                proof {
                    assert(out@ =~= old(out)@ + self.to_seq());
                }
            },
        }
    }
}

/// An in-order traversal of a tree, handing out one value per step.
pub struct BinarySearchTreeIter {
    values: Vec<i32>,
    at: usize,
}

impl BinarySearchTreeIter {
    /// The values not yet handed out.
    pub closed spec fn remaining(self) -> Seq<i32> {
        self.values@.skip(self.at as int)
    }

    /// The iterator's bookkeeping is in range.
    pub closed spec fn well_formed(self) -> bool {
        self.at <= self.values@.len()
    }

    /// Start an in-order traversal of `tree`.
    pub fn new(tree: &BinarySearchTree) -> (it: BinarySearchTreeIter)
        requires
            tree.well_formed(),
        ensures
            it.well_formed(),
            it.remaining() == tree.to_seq(),
    {
        let it = BinarySearchTreeIter { values: tree.iter(), at: 0 };
        proof {
            assert(it.remaining() =~= tree.to_seq());
        }
        it
    }

    /// The next value in order, or nothing once the traversal is done.
    pub fn next(&mut self) -> (r: Option<i32>)
        requires
            old(self).well_formed(),
        ensures
            final(self).well_formed(),
            old(self).remaining().len() == 0 ==> r is None && final(self).remaining()
                == old(self).remaining(),
            old(self).remaining().len() > 0 ==> r == Some(old(self).remaining()[0])
                && final(self).remaining() == old(self).remaining().skip(1),
    {
        if self.at < self.values.len() {
            let v = self.values[self.at];
            self.at += 1;
            proof {
                assert(self.remaining() =~= old(self).remaining().skip(1));
            }
            Some(v)
        } else {
            None
        }
    }
}

impl Default for BinarySearchTree {
    /// The empty tree.
    fn default() -> (t: Self)
        ensures
            t.well_formed(),
            t.to_seq() == Seq::<i32>::empty(),
    {
        Self::new()
    }
}

} // verus!
