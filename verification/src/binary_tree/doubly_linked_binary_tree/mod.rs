//! A binary tree whose cursors can move back up to the parent of their position.
//!
//! A cursor remembers the directions taken from the root, so moving up is dropping the last
//! of them.

pub mod cursor;

use vstd::prelude::*;
use super::Shape;
use super::linked_binary_tree::LinkedBinaryTree;
use cursor::{Cursor, CursorMut};

verus! {

/// A binary tree whose cursors can move to the parent of their position.
pub struct DoublyLinkedBinaryTree<T> {
    /// The nodes, linked from parent to children.
    pub tree: LinkedBinaryTree<T>,
}

impl<T> DoublyLinkedBinaryTree<T> {
    /// The tree as a mathematical binary tree.
    pub open spec fn shape(&self) -> Shape<T> {
        self.tree.shape()
    }

    /// Creates an empty tree.
    pub fn new() -> (t: Self)
        ensures
            t.shape() == Shape::<T>::Empty,
    {
        DoublyLinkedBinaryTree { tree: LinkedBinaryTree::new() }
    }

    /// Whether the tree has no node.
    pub fn is_empty(&self) -> (b: bool)
        ensures
            b <==> self.shape() is Empty,
    {
        self.tree.is_empty()
    }

    /// A read-only cursor at the root.
    pub fn cursor(&self) -> (c: Cursor<'_, T>)
        ensures
            c.wf(),
            c.spec_path() == Seq::<bool>::empty(),
            c.spec_tree() == self.shape(),
            c.subtree() == self.shape(),
    {
        Cursor::new(self)
    }

    /// A cursor at the root that can change the tree.
    pub fn cursor_mut(&mut self) -> (c: CursorMut<'_, T>)
        ensures
            c.wf(),
            c.inner.path@ == Seq::<bool>::empty(),
            *c.inner.tree == old(self).tree,
            *final(c.inner.tree) == final(self).tree,
    {
        CursorMut::new(self)
    }
}

impl<T> Default for DoublyLinkedBinaryTree<T> {
    fn default() -> (t: Self)
        ensures
            t.shape() == Shape::<T>::Empty,
    {
        DoublyLinkedBinaryTree::new()
    }
}

} // verus!
