//! A binary tree whose nodes own their children.
use vstd::prelude::*;

verus! {

/// A node: its data and up to two children.
pub struct Node<T> {
    data: T,
    left: Option<Box<Node<T>>>,
    right: Option<Box<Node<T>>>,
}

impl<T> Node<T> {
    /// The data held by the node.
    pub closed spec fn data_spec(&self) -> T {
        self.data
    }

    /// The left child.
    pub closed spec fn left_spec(&self) -> Option<Box<Node<T>>> {
        self.left
    }

    /// The right child.
    pub closed spec fn right_spec(&self) -> Option<Box<Node<T>>> {
        self.right
    }

    /// A node holding `data`, with no children.
    pub fn new(data: T) -> (r: Self)
        ensures
            r.data_spec() == data,
            r.left_spec() is None,
            r.right_spec() is None,
    {
        Self { data, left: None, right: None }
    }

    /// Makes `child` the left child, in place of any earlier one.
    pub fn append_left(&mut self, child: Box<Node<T>>)
        ensures
            final(self).data_spec() == old(self).data_spec(),
            final(self).left_spec() == Some(child),
            final(self).right_spec() == old(self).right_spec(),
    {
        self.left = Some(child);
    }

    /// Makes `child` the right child, in place of any earlier one.
    pub fn append_right(&mut self, child: Box<Node<T>>)
        ensures
            final(self).data_spec() == old(self).data_spec(),
            final(self).left_spec() == old(self).left_spec(),
            final(self).right_spec() == Some(child),
    {
        self.right = Some(child);
    }
}

/// A binary tree, given by its root node.
pub struct BinaryTree<T> {
    root: Box<Node<T>>,
}

impl<T> BinaryTree<T> {
    /// The root node.
    pub closed spec fn root_spec(&self) -> Node<T> {
        *self.root
    }

    /// The tree rooted at `root`.
    pub fn new(root: Box<Node<T>>) -> (r: Self)
        ensures
            r.root_spec() == *root,
    {
        BinaryTree { root }
    }
}

} // verus!
