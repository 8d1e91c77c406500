//! Binary tree nodes wired together by hand.
//!
//! A [`Node`] owns its two child slots ([`Link`]s) directly, and children are
//! attached one at a time with [`Node::add_left_child`] and
//! [`Node::add_right_child`] — nothing forces the result to be ordered.
//! Search and ordered insertion ([`Node::contains`], [`Node::insert`],
//! [`BSTree`]) apply to the trees so built that do satisfy the search
//! invariant.

use vstd::prelude::*;

verus! {

/// A child slot: empty, or the owned root of a subtree.
pub type Link = Option<Box<Node>>;

/// One element plus two owned child slots.
pub struct Node {
    elem: i64,
    left_child: Link,
    right_child: Link,
}

/// The set of elements in the subtree behind a link.
pub open spec fn link_elems(link: Link) -> Set<i64>
    decreases link,
{
    match link {
        None => Set::empty(),
        Some(n) => n.elems(),
    }
}

/// The search invariant of the subtree behind a link.
pub open spec fn link_wf(link: Link) -> bool
    decreases link,
{
    match link {
        None => true,
        Some(n) => n.wf(),
    }
}

/// The pre-order element sequence of the subtree behind a link.
pub open spec fn link_preorder(link: Link) -> Seq<i64>
    decreases link,
{
    match link {
        None => Seq::empty(),
        Some(n) => n.preorder(),
    }
}

impl Node {
    /// The element held at this node.
    pub closed spec fn value(self) -> i64 {
        self.elem
    }

    /// The left child slot.
    pub closed spec fn left(self) -> Link {
        self.left_child
    }

    /// The right child slot.
    pub closed spec fn right(self) -> Link {
        self.right_child
    }

    /// The set of elements in the subtree rooted at this node.
    pub closed spec fn elems(self) -> Set<i64>
        decreases self,
    {
        link_elems(self.left_child).union(link_elems(self.right_child)).insert(self.elem)
    }

    /// The pre-order element sequence of the subtree rooted at this node:
    /// the element here, then the left subtree, then the right subtree.
    pub closed spec fn preorder(self) -> Seq<i64>
        decreases self,
    {
        seq![self.elem] + link_preorder(self.left_child) + link_preorder(self.right_child)
    }

    /// The search invariant: everything left of this node is smaller than its
    /// element, everything right of it is greater, recursively.
    pub closed spec fn wf(self) -> bool
        decreases self,
    {
        &&& link_wf(self.left_child)
        &&& link_wf(self.right_child)
        &&& forall|x: i64| link_elems(self.left_child).contains(x) ==> x < self.elem
        &&& forall|x: i64| link_elems(self.right_child).contains(x) ==> x > self.elem
    }

    /// Law: what a node's element set, pre-order sequence and search
    /// invariant are in terms of its element and child slots. Callers that
    /// wire nodes together by hand use this to establish the invariant of
    /// what they built.
    pub proof fn lemma_unfold(n: Node)
        ensures
            n.elems() == link_elems(n.left()).union(link_elems(n.right())).insert(n.value()),
            n.preorder() == seq![n.value()] + link_preorder(n.left()) + link_preorder(n.right()),
            n.wf() <==> (link_wf(n.left()) && link_wf(n.right()) && (forall|x: i64|
                link_elems(n.left()).contains(x) ==> x < n.value()) && (forall|x: i64|
                link_elems(n.right()).contains(x) ==> x > n.value())),
    {
    }

    /// A fresh node holding `elem`, with both child slots empty.
    pub fn new(elem: i64) -> (n: Node)
        ensures
            n.value() == elem,
            n.left() is None,
            n.right() is None,
            n.wf(),
            n.elems() == set![elem],
    {
        let n = Node { elem, left_child: None, right_child: None };
        proof {
            assert(n.elems() =~= set![elem]);
        }
        n
    }

    /// Replaces the left child with `node`, returning the child that was
    /// there before.
    pub fn add_left_child(&mut self, node: Node) -> (old_child: Link)
        ensures
            old_child == old(self).left(),
            final(self).value() == old(self).value(),
            final(self).right() == old(self).right(),
            final(self).left() matches Some(b) && *b == node,
    {
        let old_child = self.left_child.take();
        self.left_child = node.to_link();
        old_child
    }

    /// Replaces the right child with `node`, returning the child that was
    /// there before.
    pub fn add_right_child(&mut self, node: Node) -> (old_child: Link)
        ensures
            old_child == old(self).right(),
            final(self).value() == old(self).value(),
            final(self).left() == old(self).left(),
            final(self).right() matches Some(b) && *b == node,
    {
        let old_child = self.right_child.take();
        self.right_child = node.to_link();
        old_child
    }

    /// Boxes this node into a link that owns it.
    pub fn to_link(self) -> (link: Link)
        ensures
            link matches Some(b) && *b == self,
    {
        Some(Box::new(self))
    }

    /// Whether `target` is in the subtree rooted here, by binary search.
    pub fn contains(&self, target: &i64) -> (found: bool)
        requires
            self.wf(),
        ensures
            found == self.elems().contains(*target),
        decreases *self,
    {
        if self.elem < *target {
            proof {
                if link_elems(self.left_child).contains(*target) {
                    assert(false);
                }
            }
            match &self.right_child {
                Some(n) => n.contains(target),
                None => {
                    proof {
                        assert(link_elems(self.right_child) =~= Set::<i64>::empty());
                    }
                    false
                },
            }
        } else if *target < self.elem {
            proof {
                if link_elems(self.right_child).contains(*target) {
                    assert(false);
                }
            }
            match &self.left_child {
                Some(n) => n.contains(target),
                None => {
                    proof {
                        assert(link_elems(self.left_child) =~= Set::<i64>::empty());
                    }
                    false
                },
            }
        } else {
            true
        }
    }

    /// Inserts `target` below this node, keeping the search invariant; a
    /// value already present leaves the tree untouched.
    pub fn insert(&mut self, target: i64)
        requires
            old(self).wf(),
        ensures
            final(self).wf(),
            final(self).elems() == old(self).elems().insert(target),
            final(self).value() == old(self).value(),
            old(self).elems().contains(target) ==> *final(self) == *old(self),
        decreases *old(self),
    {
        if target < self.elem {
            match self.left_child.take() {
                None => {
                    proof {
                        assert(link_elems(old(self).left_child) =~= Set::<i64>::empty());
                    }
                    self.left_child = Some(Box::new(Node::new(target)));
                },
                Some(mut b) => {
                    (&mut *b).insert(target);
                    self.left_child = Some(b);
                },
            }
            proof {
                Node::lemma_unfold(*self);
                if link_elems(self.right_child).contains(target) {
                    assert(false);
                }
                assert forall|x: i64| link_elems(self.left_child).contains(x) implies x
                    < self.elem by {
                    if !link_elems(old(self).left_child).contains(x) {
                        assert(x == target);
                    }
                }
                assert(self.elems() =~= old(self).elems().insert(target));
            }
        } else if self.elem < target {
            match self.right_child.take() {
                None => {
                    proof {
                        assert(link_elems(old(self).right_child) =~= Set::<i64>::empty());
                    }
                    self.right_child = Some(Box::new(Node::new(target)));
                },
                Some(mut b) => {
                    (&mut *b).insert(target);
                    self.right_child = Some(b);
                },
            }
            proof {
                Node::lemma_unfold(*self);
                if link_elems(self.left_child).contains(target) {
                    assert(false);
                }
                assert forall|x: i64| link_elems(self.right_child).contains(x) implies x
                    > self.elem by {
                    if !link_elems(old(self).right_child).contains(x) {
                        assert(x == target);
                    }
                }
                assert(self.elems() =~= old(self).elems().insert(target));
            }
        } else {
            proof {
                assert(self.elems().contains(target));
                assert(self.elems() =~= old(self).elems().insert(target));
            }
        }
    }

    /// Appends the subtree's elements to `out` in pre-order.
    fn push_pre_order(&self, out: &mut Vec<i64>)
        ensures
            final(out)@ == old(out)@ + self.preorder(),
        decreases *self,
    {
        out.push(self.elem);
        match &self.left_child {
            Some(n) => n.push_pre_order(out),
            None => (),
        }
        match &self.right_child {
            Some(n) => n.push_pre_order(out),
            None => (),
        }
        proof {
            Node::lemma_unfold(*self);
            assert(out@ =~= old(out)@ + self.preorder());
        }
    }

    /// The subtree's elements in pre-order — the element here first, then the
    /// left subtree's, then the right subtree's — as a vector.
    pub fn pre_order_vec(&self) -> (v: Vec<i64>)
        ensures
            v@ == self.preorder(),
    {
        let mut v = Vec::new();
        self.push_pre_order(&mut v);
        proof {
            assert(v@ =~= self.preorder());
        }
        v
    }
}

/// A binary search tree addressed through its root link.
pub struct BSTree {
    root: Link,
}

impl BSTree {
    /// The root link.
    pub closed spec fn spec_root(self) -> Link {
        self.root
    }

    /// The set of elements in the tree.
    pub open spec fn elems(self) -> Set<i64> {
        link_elems(self.spec_root())
    }

    /// The search invariant of the whole tree.
    pub open spec fn wf(self) -> bool {
        link_wf(self.spec_root())
    }

    /// The pre-order element sequence of the tree.
    pub open spec fn preorder(self) -> Seq<i64> {
        link_preorder(self.spec_root())
    }

    /// Wraps a root link as a tree.
    pub fn new(root: Link) -> (t: BSTree)
        ensures
            t.spec_root() == root,
    {
        BSTree { root }
    }

    /// Whether `target` is in the tree.
    pub fn contains(&self, target: &i64) -> (found: bool)
        requires
            self.wf(),
        ensures
            found == self.elems().contains(*target),
    {
        match &self.root {
            None => {
                proof {
                    assert(self.elems() =~= Set::<i64>::empty());
                }
                false
            },
            Some(n) => n.contains(target),
        }
    }

    /// Inserts `target`, keeping the search invariant; a value already
    /// present leaves the tree untouched.
    pub fn insert(&mut self, target: i64)
        requires
            old(self).wf(),
        ensures
            final(self).wf(),
            final(self).elems() == old(self).elems().insert(target),
            old(self).elems().contains(target) ==> *final(self) == *old(self),
    {
        match self.root.take() {
            Some(mut n) => {
                (&mut *n).insert(target);
                self.root = Some(n);
            },
            None => {
                proof {
                    assert(link_elems(old(self).root) =~= Set::<i64>::empty());
                }
                self.root = Node::new(target).to_link();
            },
        }
        proof {
            assert(self.elems() =~= old(self).elems().insert(target));
        }
    }

    /// The tree's elements in pre-order, as a vector.
    pub fn pre_order_vec(&self) -> (v: Vec<i64>)
        ensures
            v@ == self.preorder(),
    {
        match &self.root {
            None => Vec::new(),
            Some(n) => n.pre_order_vec(),
        }
    }
}

} // verus!
