//! A binary tree of boxed nodes linked from parent to children.

pub mod cursor;

use vstd::prelude::*;
use super::Shape;
use cursor::{Cursor, CursorMut};

verus! {

/// A node of a linked binary tree.
pub struct Node<T> {
    pub left: Option<Box<Node<T>>>,
    pub right: Option<Box<Node<T>>>,
    pub elem: T,
}

/// The tree hanging from an optional node.
pub open spec fn link_shape<T>(l: Option<Box<Node<T>>>) -> Shape<T>
    decreases l,
{
    match l {
        None => Shape::Empty,
        Some(n) => Shape::Node(Box::new(link_shape(n.left)), n.elem, Box::new(link_shape(n.right))),
    }
}

/// The tree rooted at a node.
pub open spec fn node_shape<T>(n: Node<T>) -> Shape<T> {
    Shape::Node(Box::new(link_shape(n.left)), n.elem, Box::new(link_shape(n.right)))
}

/// A binary tree of boxed nodes.
pub struct LinkedBinaryTree<T> {
    pub root: Option<Box<Node<T>>>,
}

impl<T> LinkedBinaryTree<T> {
    /// The tree as a mathematical binary tree.
    pub open spec fn shape(&self) -> Shape<T> {
        link_shape(self.root)
    }

    /// Creates an empty tree.
    pub fn new() -> (t: Self)
        ensures
            t.shape() == Shape::<T>::Empty,
    {
        LinkedBinaryTree { root: None }
    }

    /// Replaces the whole tree by the one hanging from `node`, returning the old root.
    pub fn replace_root_node(&mut self, node: Option<Box<Node<T>>>) -> (old_root: Option<Box<Node<T>>>)
        ensures
            final(self).root == node,
            old_root == old(self).root,
    {
        let old_root = self.root.take();
        self.root = node;
        old_root
    }

    /// Whether the tree has no node.
    pub fn is_empty(&self) -> (b: bool)
        ensures
            b <==> self.shape() is Empty,
    {
        self.root.is_none()
    }

    /// A read-only cursor at the root.
    pub fn cursor(&self) -> (c: Cursor<'_, T>)
        ensures
            c.subtree() == self.shape(),
    {
        Cursor::new(self)
    }

    /// A cursor at the root that can change the tree.
    pub fn cursor_mut(&mut self) -> (c: CursorMut<'_, T>)
        ensures
            c.wf(),
            c.path@ == Seq::<bool>::empty(),
            *c.tree == *old(self),
            *final(c.tree) == *final(self),
    {
        CursorMut::new(self)
    }
}

impl<T> Default for LinkedBinaryTree<T> {
    fn default() -> (t: Self)
        ensures
            t.shape() == Shape::<T>::Empty,
    {
        LinkedBinaryTree::new()
    }
}

} // verus!
