//! A multi-way tree in first-child/next-sibling form.
//!
//! Each [`Node`] owns its first child and a list of its later siblings, in
//! the order they were added. [`FileData`] is the element type of the file
//! tree the structure was made for: a named entry with a kind and a size.

use vstd::prelude::*;

verus! {

broadcast use vstd::string::to_string_from_display_ensures_for_str;

/// A child slot: empty, or the owned root of a subtree.
pub type Link<T> = Option<Box<Node<T>>>;

/// One element, its first child, and the list of siblings added after it.
pub struct Node<T> {
    elem: T,
    first_child: Link<T>,
    next_siblings: Option<Vec<Link<T>>>,
}

impl<T> Node<T> {
    /// The element held at this node.
    pub closed spec fn value(self) -> T {
        self.elem
    }

    /// The first-child slot.
    pub closed spec fn child(self) -> Link<T> {
        self.first_child
    }

    /// The sibling links in insertion order; empty while none was added.
    pub closed spec fn siblings(self) -> Seq<Link<T>> {
        match self.next_siblings {
            None => Seq::empty(),
            Some(v) => v@,
        }
    }

    /// The node [`Node::new`] returns: `elem` alone, nothing attached yet.
    pub closed spec fn leaf(elem: T) -> Node<T> {
        Node { elem, first_child: None, next_siblings: None }
    }

    /// Law: a leaf holds exactly the given element, and nothing hangs off it
    /// — no first child and no siblings.
    pub proof fn lemma_leaf(elem: T)
        ensures
            Node::leaf(elem).value() == elem,
            Node::leaf(elem).child() is None,
            Node::leaf(elem).siblings() == Seq::<Link<T>>::empty(),
    {
    }

    /// A fresh node holding `elem`, with no child and no siblings.
    pub fn new(elem: T) -> (n: Node<T>)
        ensures
            n == Node::leaf(elem),
    {
        Node { elem, first_child: None, next_siblings: None }
    }

    /// Replaces the first child with a fresh leaf holding `elem`, returning
    /// the child that was there before.
    pub fn add_first_child(&mut self, elem: T) -> (old_child: Link<T>)
        ensures
            old_child == old(self).child(),
            final(self).value() == old(self).value(),
            final(self).siblings() == old(self).siblings(),
            final(self).child() matches Some(b) && *b == Node::leaf(elem),
    {
        let old_child = self.first_child.take();
        self.first_child = Node::new(elem).to_link();
        old_child
    }

    /// Appends a fresh leaf holding `elem` to the sibling list, creating the
    /// list the first time; the order of earlier siblings is kept.
    pub fn add_next_siblings(&mut self, elem: T)
        ensures
            final(self).value() == old(self).value(),
            final(self).child() == old(self).child(),
            final(self).siblings().len() == old(self).siblings().len() + 1,
            final(self).siblings().drop_last() == old(self).siblings(),
            final(self).siblings().last() matches Some(b) && *b == Node::leaf(elem),
    {
        let next_sibling = Node::new(elem).to_link();
        let mut list = match self.next_siblings.take() {
            None => Vec::new(),
            Some(v) => v,
        };
        list.push(next_sibling);
        self.next_siblings = Some(list);
        proof {
            assert(self.siblings().drop_last() =~= old(self).siblings());
        }
    }

    /// Boxes this node into a link that owns it.
    pub fn to_link(self) -> (link: Link<T>)
        ensures
            link matches Some(b) && *b == self,
    {
        Some(Box::new(self))
    }
}

/// Whether a file entry is a directory or a plain file.
#[derive(Debug)]
pub enum FileCat {
    Dir,
    File,
}

/// A file entry: a name, a kind, and a size in bytes.
#[derive(Debug)]
pub struct FileData {
    name: String,
    cat: FileCat,
    size: u32,
}

impl FileData {
    /// The entry's name.
    pub closed spec fn spec_name(self) -> Seq<char> {
        self.name@
    }

    /// The entry's kind.
    pub closed spec fn spec_cat(self) -> FileCat {
        self.cat
    }

    /// The entry's size in bytes.
    pub closed spec fn spec_size(self) -> u32 {
        self.size
    }

    /// A plain file entry with the given name and size.
    pub fn new_file(name: &str, size: u32) -> (d: FileData)
        ensures
            d.spec_name() == name@,
            d.spec_cat() is File,
            d.spec_size() == size,
    {
        Self::new(name, FileCat::File, size)
    }

    /// A directory entry with the given name; a directory counts one byte.
    pub fn new_dir(name: &str) -> (d: FileData)
        ensures
            d.spec_name() == name@,
            d.spec_cat() is Dir,
            d.spec_size() == 1,
    {
        Self::new(name, FileCat::Dir, 1)
    }

    fn new(name: &str, cat: FileCat, size: u32) -> (d: FileData)
        ensures
            d.spec_name() == name@,
            d.spec_cat() == cat,
            d.spec_size() == size,
    {
        FileData { name: name.to_string(), cat, size }
    }

    /// The entry's name, for callers that show it.
    pub fn name(&self) -> (s: &str)
        ensures
            s@ == self.spec_name(),
    {
        self.name.as_str()
    }

    /// The entry's size in bytes, for callers that show it.
    pub fn size(&self) -> (n: u32)
        ensures
            n == self.spec_size(),
    {
        self.size
    }

    /// Boxes this entry into a one-node tree link.
    pub fn to_node(self) -> (link: Link<FileData>)
        ensures
            link matches Some(b) && *b == Node::leaf(self),
    {
        Node::new(self).to_link()
    }
}

/// A multi-way tree addressed through its root link.
pub struct Common<T> {
    root: Link<T>,
}

impl<T> Common<T> {
    /// The root link.
    pub closed spec fn spec_root(self) -> Link<T> {
        self.root
    }

    /// Wraps a root link as a tree.
    pub fn new(node: Link<T>) -> (t: Common<T>)
        ensures
            t.spec_root() == node,
    {
        Common { root: node }
    }
}

} // verus!
