//! An unbalanced binary search tree over `i64` elements.
//!
//! A [`Tree`] is a slot that either is empty or owns the root [`Node`] of a
//! subtree; every node owns its two child slots in turn. The operations keep
//! the search invariant — everything left of a node is smaller, everything
//! right of it is greater, and no element occurs twice — and [`Tree::remove`]
//! detaches the node holding the target and returns it as a one-node subtree.
//! [`BinarySearchTree`] wraps a root slot together with a maintained element
//! count.

use vstd::prelude::*;

verus! {

/// One element plus its two child slots.
pub struct Node {
    data: i64,
    left: Tree,
    right: Tree,
}

/// A slot that owns at most one subtree: empty, or rooted at one [`Node`].
pub struct Tree {
    root: Option<Box<Node>>,
}

impl Node {
    /// The set of elements in the subtree rooted at this node.
    pub closed spec fn elems(self) -> Set<i64>
        decreases self,
    {
        self.left.elems().union(self.right.elems()).insert(self.data)
    }

    /// The in-order element sequence of the subtree rooted at this node.
    pub closed spec fn inorder(self) -> Seq<i64>
        decreases self,
    {
        self.left.inorder() + seq![self.data] + self.right.inorder()
    }

    /// The search invariant: everything in the left subtree is smaller than
    /// this node's element, everything in the right subtree is greater, and
    /// both subtrees uphold the same.
    pub closed spec fn wf(self) -> bool
        decreases self,
    {
        &&& self.left.wf()
        &&& self.right.wf()
        &&& forall|x: i64| self.left.elems().contains(x) ==> x < self.data
        &&& forall|x: i64| self.right.elems().contains(x) ==> x > self.data
    }

    /// A fresh leaf holding `data`, with both child slots empty.
    pub fn new(data: i64) -> (n: Node)
        ensures
            n.wf(),
            n.elems() == set![data],
            n.inorder() == seq![data],
    {
        let n = Node { data, left: Tree { root: None }, right: Tree { root: None } };
        proof {
            assert(n.elems() =~= set![data]);
            assert(n.inorder() =~= seq![data]);
        }
        n
    }

    /// Unfolds one step of `elems`, `inorder` and `wf`; the nested spec calls
    /// sit two recursion levels deep, past the solver's default unfolding.
    proof fn lemma_unfold(n: Node)
        ensures
            n.elems() == n.left.elems().union(n.right.elems()).insert(n.data),
            n.inorder() == n.left.inorder() + seq![n.data] + n.right.inorder(),
            n.wf() <==> (n.left.wf() && n.right.wf() && (forall|x: i64|
                n.left.elems().contains(x) ==> x < n.data) && (forall|x: i64|
                n.right.elems().contains(x) ==> x > n.data)),
    {
    }
}

impl Tree {
    /// The set of elements held in this slot's subtree.
    pub closed spec fn elems(self) -> Set<i64>
        decreases self,
    {
        match self.root {
            None => Set::empty(),
            Some(node) => node.elems(),
        }
    }

    /// The in-order element sequence of this slot's subtree.
    pub closed spec fn inorder(self) -> Seq<i64>
        decreases self,
    {
        match self.root {
            None => Seq::empty(),
            Some(node) => node.inorder(),
        }
    }

    /// Whether the subtree in this slot upholds the search invariant.
    pub closed spec fn wf(self) -> bool
        decreases self,
    {
        match self.root {
            None => true,
            Some(node) => node.wf(),
        }
    }

    /// A new empty tree.
    pub fn empty() -> (t: Tree)
        ensures
            t.wf(),
            t.elems() == Set::<i64>::empty(),
            t.inorder() == Seq::<i64>::empty(),
    {
        Tree { root: None }
    }

    /// Whether an element equal to `target` is in the tree. A pure read.
    pub fn contains(&self, target: &i64) -> (found: bool)
        requires
            self.wf(),
        ensures
            found == self.elems().contains(*target),
        decreases *self,
    {
        match &self.root {
            None => false,
            Some(node) => {
                if *target < node.data {
                    proof {
                        assert(!node.right.elems().contains(*target));
                    }
                    node.left.contains(target)
                } else if node.data < *target {
                    proof {
                        assert(!node.left.elems().contains(*target));
                    }
                    node.right.contains(target)
                } else {
                    true
                }
            },
        }
    }

    /// The smallest element, reached by walking `left` slots; `None` exactly
    /// when the tree is empty.
    pub fn min(&self) -> (r: Option<&i64>)
        requires
            self.wf(),
        ensures
            r is Some <==> self.elems() != Set::<i64>::empty(),
            r matches Some(m) ==> self.elems().contains(*m) && forall|x: i64|
                self.elems().contains(x) ==> *m <= x,
        decreases *self,
    {
        match &self.root {
            None => None,
            Some(node) => match node.left.min() {
                Some(m) => {
                    proof {
                        assert(node.left.elems().contains(*m));
                        assert(self.elems().contains(*m));
                        assert forall|x: i64| self.elems().contains(x) implies *m <= x by {
                            if node.left.elems().contains(x) {
                            } else if node.right.elems().contains(x) {
                                assert(*m < node.data);
                            } else {
                                assert(x == node.data);
                            }
                        }
                    }
                    Some(m)
                },
                None => {
                    proof {
                        assert(self.elems().contains(node.data));
                        assert forall|x: i64| self.elems().contains(x) implies node.data <= x by {
                            if node.left.elems().contains(x) {
                                assert(node.left.elems() != Set::<i64>::empty());
                            } else if node.right.elems().contains(x) {
                            } else {
                                assert(x == node.data);
                            }
                        }
                    }
                    Some(&node.data)
                },
            },
        }
    }

    /// The largest element, reached by walking `right` slots; `None` exactly
    /// when the tree is empty.
    pub fn max(&self) -> (r: Option<&i64>)
        requires
            self.wf(),
        ensures
            r is Some <==> self.elems() != Set::<i64>::empty(),
            r matches Some(m) ==> self.elems().contains(*m) && forall|x: i64|
                self.elems().contains(x) ==> *m >= x,
        decreases *self,
    {
        match &self.root {
            None => None,
            Some(node) => match node.right.max() {
                Some(m) => {
                    proof {
                        assert(node.right.elems().contains(*m));
                        assert(self.elems().contains(*m));
                        assert forall|x: i64| self.elems().contains(x) implies *m >= x by {
                            if node.right.elems().contains(x) {
                            } else if node.left.elems().contains(x) {
                                assert(*m > node.data);
                            } else {
                                assert(x == node.data);
                            }
                        }
                    }
                    Some(m)
                },
                None => {
                    proof {
                        assert(self.elems().contains(node.data));
                        assert forall|x: i64| self.elems().contains(x) implies node.data >= x by {
                            if node.right.elems().contains(x) {
                                assert(node.right.elems() != Set::<i64>::empty());
                            } else if node.left.elems().contains(x) {
                            } else {
                                assert(x == node.data);
                            }
                        }
                    }
                    Some(&node.data)
                },
            },
        }
    }

    /// Inserts `new_data`, keeping the search invariant; returns whether the
    /// tree grew (`false` means the value was already present and nothing
    /// changed). A successful call adds exactly one node.
    pub fn insert(&mut self, new_data: i64) -> (inserted: bool)
        requires
            old(self).wf(),
        ensures
            final(self).wf(),
            inserted == !old(self).elems().contains(new_data),
            final(self).elems() == old(self).elems().insert(new_data),
            !inserted ==> *final(self) == *old(self),
            inserted ==> final(self).inorder().len() == old(self).inorder().len() + 1,
        decreases *old(self),
    {
        match self.root.take() {
            None => {
                self.root = Some(Box::new(Node::new(new_data)));
                proof {
                    assert(self.elems() =~= old(self).elems().insert(new_data));
                }
                true
            },
            Some(mut node) => {
                if new_data < node.data {
                    let inserted = node.left.insert(new_data);
                    proof {
                        assert forall|x: i64| node.left.elems().contains(x) implies x
                            < node.data by {
                            if !old(self).root.unwrap().left.elems().contains(x) {
                                assert(x == new_data);
                            }
                        }
                        if node.right.elems().contains(new_data) {
                            assert(false);
                        }
                    }
                    self.root = Some(node);
                    proof {
                        assert(self.elems() =~= old(self).elems().insert(new_data));
                    }
                    inserted
                } else if node.data < new_data {
                    let inserted = node.right.insert(new_data);
                    proof {
                        assert forall|x: i64| node.right.elems().contains(x) implies x
                            > node.data by {
                            if !old(self).root.unwrap().right.elems().contains(x) {
                                assert(x == new_data);
                            }
                        }
                        if node.left.elems().contains(new_data) {
                            assert(false);
                        }
                    }
                    self.root = Some(node);
                    proof {
                        assert(self.elems() =~= old(self).elems().insert(new_data));
                    }
                    inserted
                } else {
                    self.root = Some(node);
                    proof {
                        assert(old(self).elems().contains(new_data));
                        assert(self.elems() =~= old(self).elems().insert(new_data));
                    }
                    false
                }
            },
        }
    }

    /// Detaches the node holding `target` and returns it as a one-node
    /// subtree, or returns `None` and leaves the tree untouched when no node
    /// holds it. The remaining tree keeps the search invariant. A node with
    /// two children is replaced by its in-order successor, the smallest
    /// element of its right subtree, which inherits both children.
    pub fn remove(&mut self, target: &i64) -> (removed: Option<Tree>)
        requires
            old(self).wf(),
        ensures
            final(self).wf(),
            final(self).elems() == old(self).elems().remove(*target),
            removed is Some <==> old(self).elems().contains(*target),
            removed matches Some(t) ==> t.wf() && t.elems() == set![*target] && t.inorder()
                == seq![*target],
            removed is None ==> *final(self) == *old(self),
            removed is Some ==> final(self).inorder().len() + 1 == old(self).inorder().len(),
        decreases *old(self),
    {
        match self.root.take() {
            None => {
                proof {
                    assert(self.elems() =~= old(self).elems().remove(*target));
                }
                None
            },
            Some(mut node) => {
                if *target < node.data {
                    let removed = node.left.remove(target);
                    proof {
                        assert forall|x: i64| node.left.elems().contains(x) implies x
                            < node.data by {
                            assert(old(self).root.unwrap().left.elems().contains(x));
                        }
                        if node.right.elems().contains(*target) {
                            assert(false);
                        }
                    }
                    self.root = Some(node);
                    proof {
                        assert(self.elems() =~= old(self).elems().remove(*target));
                    }
                    removed
                } else if node.data < *target {
                    let removed = node.right.remove(target);
                    proof {
                        assert forall|x: i64| node.right.elems().contains(x) implies x
                            > node.data by {
                            assert(old(self).root.unwrap().right.elems().contains(x));
                        }
                        if node.left.elems().contains(*target) {
                            assert(false);
                        }
                    }
                    self.root = Some(node);
                    proof {
                        assert(self.elems() =~= old(self).elems().remove(*target));
                    }
                    removed
                } else if node.left.root.is_none() && node.right.root.is_none() {
                    // The found node is a leaf: its slot simply becomes empty.
                    let detached = Tree { root: Some(node) };
                    proof {
                        Node::lemma_unfold(*node);
                        assert(node.left.elems() =~= Set::<i64>::empty());
                        assert(node.right.elems() =~= Set::<i64>::empty());
                        assert(node.left.inorder() =~= Seq::<i64>::empty());
                        assert(node.right.inorder() =~= Seq::<i64>::empty());
                        assert(node.left.wf() && node.right.wf());
                        assert(detached.elems() =~= set![*target]);
                        assert(detached.inorder() =~= seq![*target]);
                        assert(self.elems() =~= old(self).elems().remove(*target));
                    }
                    Some(detached)
                } else if node.right.root.is_none() {
                    // Only a left child: it moves up intact into this slot.
                    proof {
                        Node::lemma_unfold(*old(self).root.unwrap());
                    }
                    self.root = node.left.root.take();
                    proof {
                        Node::lemma_unfold(*node);
                        assert(node.left.elems() =~= Set::<i64>::empty());
                        assert(node.right.elems() =~= Set::<i64>::empty());
                        assert(node.left.inorder() =~= Seq::<i64>::empty());
                        assert(node.right.inorder() =~= Seq::<i64>::empty());
                        assert(node.left.wf() && node.right.wf());
                        assert(node.elems() =~= set![*target]);
                        assert(node.inorder() =~= seq![*target]);
                        assert(*self == old(self).root.unwrap().left);
                        assert(self.elems() =~= old(self).elems().remove(*target));
                    }
                    Some(Tree { root: Some(node) })
                } else if node.left.root.is_none() {
                    // Only a right child: it moves up intact into this slot.
                    proof {
                        Node::lemma_unfold(*old(self).root.unwrap());
                    }
                    self.root = node.right.root.take();
                    proof {
                        Node::lemma_unfold(*node);
                        assert(node.left.elems() =~= Set::<i64>::empty());
                        assert(node.right.elems() =~= Set::<i64>::empty());
                        assert(node.left.inorder() =~= Seq::<i64>::empty());
                        assert(node.right.inorder() =~= Seq::<i64>::empty());
                        assert(node.left.wf() && node.right.wf());
                        assert(node.elems() =~= set![*target]);
                        assert(node.inorder() =~= seq![*target]);
                        assert(*self == old(self).root.unwrap().right);
                        assert(self.elems() =~= old(self).elems().remove(*target));
                    }
                    Some(Tree { root: Some(node) })
                } else {
                    // Two children: detach the in-order successor from the
                    // right subtree and install it here, handing it both of
                    // the found node's children.
                    proof {
                        assert(node.right.elems().contains(node.right.root.unwrap().data));
                    }
                    let successor = *node.right.min().unwrap();
                    let detached_successor = node.right.remove(&successor);
                    let mut successor_node = match detached_successor {
                        Some(t) => {
                            proof {
                                if t.root is None {
                                    assert(t.elems() =~= Set::<i64>::empty());
                                    assert(set![successor].contains(successor));
                                    assert(false);
                                }
                            }
                            t.root.unwrap()
                        },
                        None => unreached(),
                    };
                    proof {
                        assert(successor_node.elems().contains(successor_node.data));
                        assert(set![successor].contains(successor_node.data));
                    }
                    let ghost shrunk_right = node.right;
                    successor_node.left.root = node.left.root.take();
                    successor_node.right.root = node.right.root.take();
                    self.root = Some(successor_node);
                    proof {
                        let orig = *old(self).root.unwrap();
                        Node::lemma_unfold(orig);
                        Node::lemma_unfold(*node);
                        Node::lemma_unfold(*successor_node);
                        assert(successor_node.left == orig.left);
                        assert(successor_node.right == shrunk_right);
                        assert(orig.right.elems().contains(successor));
                        assert forall|x: i64| successor_node.left.elems().contains(x) implies x
                            < successor_node.data by {
                            assert(orig.left.elems().contains(x));
                        }
                        assert forall|x: i64| successor_node.right.elems().contains(x) implies x
                            > successor_node.data by {
                            assert(orig.right.elems().contains(x));
                        }
                        assert(node.left.elems() =~= Set::<i64>::empty());
                        assert(node.right.elems() =~= Set::<i64>::empty());
                        assert(node.left.inorder() =~= Seq::<i64>::empty());
                        assert(node.right.inorder() =~= Seq::<i64>::empty());
                        assert(node.left.wf() && node.right.wf());
                        assert(node.elems() =~= set![*target]);
                        assert(node.inorder() =~= seq![*target]);
                        assert(self.elems() =~= old(self).elems().remove(*target));
                        assert(self.inorder().len() + 1 == old(self).inorder().len());
                    }
                    Some(Tree { root: Some(node) })
                }
            },
        }
    }

    /// Appends the subtree's elements to `out` in order.
    fn push_in_order(&self, out: &mut Vec<i64>)
        ensures
            final(out)@ == old(out)@ + self.inorder(),
        decreases *self,
    {
        match &self.root {
            None => {
                proof {
                    assert(out@ =~= old(out)@ + self.inorder());
                }
            },
            Some(node) => {
                node.left.push_in_order(out);
                out.push(node.data);
                node.right.push_in_order(out);
                proof {
                    Node::lemma_unfold(**node);
                    assert(out@ =~= old(out)@ + self.inorder());
                }
            },
        }
    }

    /// The elements in ascending order (for a well-formed tree), as a vector:
    /// the in-order walk of the tree.
    pub fn in_order_vec(&self) -> (v: Vec<i64>)
        ensures
            v@ == self.inorder(),
    {
        let mut v = Vec::new();
        self.push_in_order(&mut v);
        proof {
            assert(v@ =~= self.inorder());
        }
        v
    }

    /// The smallest element; `None` exactly when the tree is empty.
    pub fn find_min(&self) -> (r: Option<&i64>)
        requires
            self.wf(),
        ensures
            r is Some <==> self.elems() != Set::<i64>::empty(),
            r matches Some(m) ==> self.elems().contains(*m) && forall|x: i64|
                self.elems().contains(x) ==> *m <= x,
    {
        self.min()
    }
}

/// A binary search tree together with a maintained element count.
pub struct BinarySearchTree {
    root: Tree,
    size: usize,
}

impl BinarySearchTree {
    /// The set of elements in the tree.
    pub closed spec fn elems(self) -> Set<i64> {
        self.root.elems()
    }

    /// The in-order element sequence of the tree.
    pub closed spec fn inorder(self) -> Seq<i64> {
        self.root.inorder()
    }

    /// The search invariant, plus: the stored count is the number of nodes.
    pub closed spec fn wf(self) -> bool {
        self.root.wf() && self.size == self.root.inorder().len()
    }

    /// A new empty tree with a count of zero.
    pub fn new() -> (t: BinarySearchTree)
        ensures
            t.wf(),
            t.elems() == Set::<i64>::empty(),
            t.inorder() == Seq::<i64>::empty(),
    {
        BinarySearchTree { root: Tree::empty(), size: 0 }
    }

    /// How many elements the tree holds.
    pub fn len(&self) -> (n: usize)
        requires
            self.wf(),
        ensures
            n == self.inorder().len(),
    {
        self.size
    }

    /// Inserts `new_data` and counts it, unless it was already present.
    pub fn insert(&mut self, new_data: i64) -> (inserted: bool)
        requires
            old(self).wf(),
            old(self).inorder().len() < usize::MAX,
        ensures
            final(self).wf(),
            inserted == !old(self).elems().contains(new_data),
            final(self).elems() == old(self).elems().insert(new_data),
            !inserted ==> *final(self) == *old(self),
            inserted ==> final(self).inorder().len() == old(self).inorder().len() + 1,
    {
        let inserted = self.root.insert(new_data);
        if inserted {
            self.size = self.size + 1;
        }
        inserted
    }

    /// Detaches the node holding `target` as [`Tree::remove`] does, keeping
    /// the count accurate.
    pub fn remove(&mut self, target: &i64) -> (removed: Option<Tree>)
        requires
            old(self).wf(),
        ensures
            final(self).wf(),
            final(self).elems() == old(self).elems().remove(*target),
            removed is Some <==> old(self).elems().contains(*target),
            removed matches Some(t) ==> t.wf() && t.elems() == set![*target] && t.inorder()
                == seq![*target],
            removed is None ==> *final(self) == *old(self),
            removed is Some ==> final(self).inorder().len() + 1 == old(self).inorder().len(),
    {
        let removed = self.root.remove(target);
        if removed.is_some() {
            self.size = self.size - 1;
        }
        removed
    }

    /// Whether an element equal to `target` is in the tree.
    pub fn contains(&self, target: &i64) -> (found: bool)
        requires
            self.wf(),
        ensures
            found == self.elems().contains(*target),
    {
        self.root.contains(target)
    }

    /// The smallest element; `None` exactly when the tree is empty.
    pub fn min(&self) -> (r: Option<&i64>)
        requires
            self.wf(),
        ensures
            r is Some <==> self.elems() != Set::<i64>::empty(),
            r matches Some(m) ==> self.elems().contains(*m) && forall|x: i64|
                self.elems().contains(x) ==> *m <= x,
    {
        self.root.min()
    }

    /// The largest element; `None` exactly when the tree is empty.
    pub fn max(&self) -> (r: Option<&i64>)
        requires
            self.wf(),
        ensures
            r is Some <==> self.elems() != Set::<i64>::empty(),
            r matches Some(m) ==> self.elems().contains(*m) && forall|x: i64|
                self.elems().contains(x) ==> *m >= x,
    {
        self.root.max()
    }

    /// The elements in ascending order, as a vector.
    pub fn in_order_vec(&self) -> (v: Vec<i64>)
        ensures
            v@ == self.inorder(),
    {
        self.root.in_order_vec()
    }
}

/// Whether a sequence is strictly increasing.
pub open spec fn strictly_increasing(s: Seq<i64>) -> bool {
    forall|i: int, j: int| 0 <= i < j < s.len() ==> s[i] < s[j]
}

/// Law: the in-order sequence of a well-formed tree is strictly increasing
/// and lists exactly the tree's elements. Since `insert` and `remove` keep
/// the invariant, the in-order sequence stays strictly increasing across
/// every operation.
pub proof fn lemma_inorder_sorted(t: Tree)
    requires
        t.wf(),
    ensures
        strictly_increasing(t.inorder()),
        forall|x: i64| t.inorder().contains(x) <==> t.elems().contains(x),
    decreases t,
{
    match t.root {
        None => {
            assert forall|x: i64| !t.inorder().contains(x) by {
                if t.inorder().contains(x) {
                    let i = choose|i: int| 0 <= i < t.inorder().len() && t.inorder()[i] == x;
                }
            }
        },
        Some(node) => {
            lemma_inorder_sorted(node.left);
            lemma_inorder_sorted(node.right);
            Node::lemma_unfold(*node);
            let s = t.inorder();
            let l = node.left.inorder();
            let r = node.right.inorder();
            assert(s == l + seq![node.data] + r);
            assert forall|x: i64| s.contains(x) implies t.elems().contains(x) by {
                let i = choose|i: int| 0 <= i < s.len() && s[i] == x;
                if i < l.len() {
                    assert(l[i] == x);
                    assert(l.contains(x));
                } else if i == l.len() {
                    assert(x == node.data);
                } else {
                    assert(r[i - l.len() - 1] == x);
                    assert(r.contains(x));
                }
            }
            assert forall|x: i64| t.elems().contains(x) implies s.contains(x) by {
                if node.left.elems().contains(x) {
                    let i = choose|i: int| 0 <= i < l.len() && l[i] == x;
                    assert(s[i] == x);
                } else if node.right.elems().contains(x) {
                    let i = choose|i: int| 0 <= i < r.len() && r[i] == x;
                    assert(s[l.len() + 1 + i] == x);
                } else {
                    assert(x == node.data);
                    assert(s[l.len() as int] == x);
                }
            }
            assert forall|i: int, j: int| 0 <= i < j < s.len() implies s[i] < s[j] by {
                if i < l.len() {
                    assert(l.contains(l[i]));
                    assert(node.left.elems().contains(l[i]));
                }
                if j < l.len() {
                    assert(l.contains(l[j]));
                }
                if i > l.len() {
                    assert(r.contains(r[i - l.len() - 1]));
                }
                if j > l.len() {
                    assert(r.contains(r[j - l.len() - 1]));
                    assert(node.right.elems().contains(r[j - l.len() - 1]));
                }
            }
        },
    }
}

/// The element set of a tree built by inserting each value of `vs` in turn
/// into an empty tree: `Tree::insert` steps the element set by `Set::insert`
/// from `Set::empty`.
pub open spec fn inserted_elems(vs: Seq<i64>) -> Set<i64>
    decreases vs.len(),
{
    if vs.len() == 0 {
        Set::empty()
    } else {
        inserted_elems(vs.drop_last()).insert(vs.last())
    }
}

/// Law: a tree built by inserting the values of `vs` into an empty tree
/// contains an element exactly when it occurs in `vs` — `contains` answers
/// `true` for every inserted value and `false` for any value never inserted.
pub proof fn lemma_inserted_elems_membership(vs: Seq<i64>, x: i64)
    ensures
        inserted_elems(vs).contains(x) <==> vs.contains(x),
    decreases vs.len(),
{
    if vs.len() == 0 {
        if vs.contains(x) {
            let i = choose|i: int| 0 <= i < vs.len() && vs[i] == x;
        }
    } else {
        lemma_inserted_elems_membership(vs.drop_last(), x);
        if vs.contains(x) {
            let i = choose|i: int| 0 <= i < vs.len() && vs[i] == x;
            if i < vs.len() - 1 {
                assert(vs.drop_last()[i] == x);
                assert(vs.drop_last().contains(x));
            } else {
                assert(x == vs.last());
            }
        }
        if vs.drop_last().contains(x) {
            let i = choose|i: int| 0 <= i < vs.drop_last().len() && vs.drop_last()[i] == x;
            assert(vs[i] == x);
            assert(vs.contains(x));
        }
        if x == vs.last() {
            assert(vs[vs.len() - 1] == x);
            assert(vs.contains(x));
        }
    }
}

/// The element set left after removing each value of `vs` in turn from a tree
/// whose element set is `s`: `Tree::remove` steps the element set by
/// `Set::remove`.
pub open spec fn remaining_elems(s: Set<i64>, vs: Seq<i64>) -> Set<i64>
    decreases vs.len(),
{
    if vs.len() == 0 {
        s
    } else {
        remaining_elems(s.remove(vs.first()), vs.drop_first())
    }
}

proof fn lemma_remaining_elems_membership(s: Set<i64>, vs: Seq<i64>, x: i64)
    ensures
        remaining_elems(s, vs).contains(x) <==> s.contains(x) && !vs.contains(x),
    decreases vs.len(),
{
    if vs.len() == 0 {
        if vs.contains(x) {
            let i = choose|i: int| 0 <= i < vs.len() && vs[i] == x;
        }
    } else {
        lemma_remaining_elems_membership(s.remove(vs.first()), vs.drop_first(), x);
        if vs.drop_first().contains(x) {
            let i = choose|i: int| 0 <= i < vs.drop_first().len() && vs.drop_first()[i] == x;
            assert(vs[i + 1] == x);
            assert(vs.contains(x));
        }
        if vs.contains(x) && x != vs.first() {
            let i = choose|i: int| 0 <= i < vs.len() && vs[i] == x;
            assert(i > 0);
            assert(vs.drop_first()[i - 1] == x);
            assert(vs.drop_first().contains(x));
        }
        if x == vs.first() {
            assert(vs[0] == x);
            assert(vs.contains(x));
        }
    }
}

/// Law: removing every element of a tree, in any order, empties it. `vs` is
/// the order of removal; as soon as it covers the element set, nothing
/// remains, and `min` and `max` then answer `None`.
pub proof fn lemma_remove_all_empties(s: Set<i64>, vs: Seq<i64>)
    requires
        forall|x: i64| s.contains(x) ==> vs.contains(x),
    ensures
        remaining_elems(s, vs) == Set::<i64>::empty(),
{
    assert forall|x: i64| !remaining_elems(s, vs).contains(x) by {
        lemma_remaining_elems_membership(s, vs, x);
    }
    assert(remaining_elems(s, vs) =~= Set::<i64>::empty());
}

} // verus!
