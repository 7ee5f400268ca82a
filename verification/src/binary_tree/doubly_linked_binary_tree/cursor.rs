//! Cursors that can move down to a child and back up to the parent.

use vstd::prelude::*;
use super::DoublyLinkedBinaryTree;
use super::super::{Shape, deref_opt, deref_opt_mut, subtree_at, valid_path, lemma_path_push, lemma_path_pop, set_left, set_right};
use super::super::linked_binary_tree::LinkedBinaryTree;
use super::super::linked_binary_tree::cursor::{Cursor as LinkedCursor, CursorMut as LinkedCursorMut};

verus! {

/// The first `n` directions of `path`.
fn prefix(path: &Vec<bool>, n: usize) -> (r: Vec<bool>)
    requires
        n <= path@.len(),
    ensures
        r@ == path@.take(n as int),
{
    let mut r: Vec<bool> = Vec::new();
    let mut i: usize = 0;
    while i < n
        invariant
            i <= n,
            n <= path@.len(),
            r@ == path@.take(i as int),
        decreases n - i,
    {
        r.push(path[i]);
        proof {
            assert(r@ =~= path@.take(i + 1));
        }
        i = i + 1;
    }
    r
}

/// A read-only cursor: a tree and the directions (`true` for left) from its root to the
/// cursor's position.
pub struct Cursor<'a, T> {
    tree: &'a DoublyLinkedBinaryTree<T>,
    path: Vec<bool>,
}

impl<'a, T> Cursor<'a, T> {
    /// The whole tree.
    pub closed spec fn spec_tree(&self) -> Shape<T> {
        self.tree.shape()
    }

    /// The directions from the root to the cursor's position.
    pub closed spec fn spec_path(&self) -> Seq<bool> {
        self.path@
    }

    /// Every node above the cursor's position exists.
    pub open spec fn wf(&self) -> bool {
        valid_path(self.spec_tree(), self.spec_path(), 0)
    }

    /// The subtree at the cursor.
    pub open spec fn subtree(&self) -> Shape<T> {
        subtree_at(self.spec_tree(), self.spec_path(), 0)
    }

    /// The subtree at the parent of the cursor's position (the whole tree at the root).
    pub open spec fn parent_subtree(&self) -> Shape<T> {
        subtree_at(self.spec_tree(), self.spec_path().drop_last(), 0)
    }

    /// A cursor at the root of `tree`.
    pub fn new(tree: &'a DoublyLinkedBinaryTree<T>) -> (c: Self)
        ensures
            c.wf(),
            c.spec_path() == Seq::<bool>::empty(),
            c.spec_tree() == tree.shape(),
    {
        Cursor { tree, path: Vec::new() }
    }

    /// The value at the cursor, or `None` at an empty position.
    pub fn as_ref(&self) -> (r: Option<&T>)
        ensures
            deref_opt(r) == self.subtree().root(),
    {
        LinkedCursor::at_path(&self.tree.tree, &self.path).into_ref()
    }

    /// Whether the subtree at the cursor is empty.
    pub fn is_empty_subtree(&self) -> (b: bool)
        ensures
            b <==> self.subtree() is Empty,
    {
        LinkedCursor::at_path(&self.tree.tree, &self.path).is_empty_subtree()
    }

    /// The value of the left child, or `None` when there is none.
    pub fn left(&self) -> (r: Option<&T>)
        ensures
            deref_opt(r) == self.subtree().left().root(),
    {
        let mut c = LinkedCursor::at_path(&self.tree.tree, &self.path);
        if c.is_empty_subtree() {
            None
        } else {
            c.move_left();
            c.into_ref()
        }
    }

    /// The value of the right child, or `None` when there is none.
    pub fn right(&self) -> (r: Option<&T>)
        ensures
            deref_opt(r) == self.subtree().right().root(),
    {
        let mut c = LinkedCursor::at_path(&self.tree.tree, &self.path);
        if c.is_empty_subtree() {
            None
        } else {
            c.move_right();
            c.into_ref()
        }
    }

    /// The value at the parent of the cursor's position, or `None` at the root.
    pub fn parent(&self) -> (r: Option<&T>)
        ensures
            self.spec_path().len() == 0 ==> r is None,
            self.spec_path().len() > 0 ==> deref_opt(r) == self.parent_subtree().root(),
    {
        let n = self.path.len();
        if n == 0 {
            None
        } else {
            let up = prefix(&self.path, n - 1);
            proof {
                assert(up@ =~= self.path@.drop_last());
            }
            LinkedCursor::at_path(&self.tree.tree, &up).into_ref()
        }
    }

    /// Moves to the left subtree; does nothing at an empty position.
    pub fn move_left(&mut self)
        requires
            old(self).wf(),
        ensures
            final(self).wf(),
            final(self).spec_tree() == old(self).spec_tree(),
            old(self).subtree() is Node ==> final(self).spec_path() == old(self).spec_path().push(true)
                && final(self).subtree() == old(self).subtree().left(),
            old(self).subtree() is Empty ==> final(self).spec_path() == old(self).spec_path(),
    {
        if !self.is_empty_subtree() {
            proof {
                lemma_path_push(self.spec_tree(), self.path@, 0, true);
            }
            self.path.push(true);
        }
    }

    /// Moves to the right subtree; does nothing at an empty position.
    pub fn move_right(&mut self)
        requires
            old(self).wf(),
        ensures
            final(self).wf(),
            final(self).spec_tree() == old(self).spec_tree(),
            old(self).subtree() is Node ==> final(self).spec_path() == old(self).spec_path().push(false)
                && final(self).subtree() == old(self).subtree().right(),
            old(self).subtree() is Empty ==> final(self).spec_path() == old(self).spec_path(),
    {
        if !self.is_empty_subtree() {
            proof {
                lemma_path_push(self.spec_tree(), self.path@, 0, false);
            }
            self.path.push(false);
        }
    }

    /// Moves to the parent of the cursor's position; does nothing at the root.
    pub fn move_parent(&mut self)
        requires
            old(self).wf(),
        ensures
            final(self).wf(),
            final(self).spec_tree() == old(self).spec_tree(),
            old(self).spec_path().len() == 0 ==> final(self).spec_path() == old(self).spec_path(),
            old(self).spec_path().len() > 0 ==> final(self).spec_path() == old(self).spec_path().drop_last()
                && final(self).subtree() is Node && old(self).subtree() == if old(self).spec_path().last() {
                final(self).subtree().left()
            } else {
                final(self).subtree().right()
            },
    {
        if self.path.len() > 0 {
            proof {
                let p = self.path@;
                lemma_path_pop(self.spec_tree(), p, 0);
                lemma_path_push(self.spec_tree(), p.drop_last(), 0, p.last());
                assert(p.drop_last().push(p.last()) =~= p);
            }
            self.path.pop();
        }
    }

    /// The value at the cursor, for as long as the tree is borrowed.
    pub fn into_ref(self) -> (r: Option<&'a T>)
        ensures
            deref_opt(r) == self.subtree().root(),
    {
        let tree: &'a DoublyLinkedBinaryTree<T> = self.tree;
        LinkedCursor::at_path(&tree.tree, &self.path).into_ref()
    }

    /// The values of the subtree at the cursor in level order.
    pub fn in_order_iter(&self) -> (r: Vec<T>)
        where
            T: Copy,
        requires
            self.subtree().height() <= usize::MAX,
        ensures
            r@ == self.subtree().level_order(),
    {
        LinkedCursor::at_path(&self.tree.tree, &self.path).in_order_iter()
    }

    /// The values of the subtree at the cursor in pre-order.
    pub fn pre_order_iter(&self) -> (r: Vec<T>)
        where
            T: Copy,
        ensures
            r@ == self.subtree().pre_order(),
    {
        LinkedCursor::at_path(&self.tree.tree, &self.path).pre_order_iter()
    }

    /// The values of the subtree at the cursor in symmetric order.
    pub fn mid_order_iter(&self) -> (r: Vec<T>)
        where
            T: Copy,
        ensures
            r@ == self.subtree().mid_order(),
    {
        LinkedCursor::at_path(&self.tree.tree, &self.path).mid_order_iter()
    }

    /// The values of the subtree at the cursor in post-order.
    pub fn post_order_iter(&self) -> (r: Vec<T>)
        where
            T: Copy,
        ensures
            r@ == self.subtree().post_order(),
    {
        LinkedCursor::at_path(&self.tree.tree, &self.path).post_order_iter()
    }
}

/// A cursor that can change the tree and move back up to the parent of its position.
pub struct CursorMut<'a, T> {
    /// A cursor over the nodes of the tree, with the directions from the root.
    pub inner: LinkedCursorMut<'a, T>,
}

impl<'a, T> CursorMut<'a, T> {
    /// Every node above the cursor's position exists.
    pub open spec fn wf(&self) -> bool {
        self.inner.wf()
    }

    /// The subtree at the cursor.
    pub open spec fn subtree(&self) -> Shape<T> {
        self.inner.subtree()
    }

    /// The whole tree with the subtree at the cursor replaced by `s`.
    pub open spec fn with_subtree(&self, s: Shape<T>) -> Shape<T> {
        self.inner.with_subtree(s)
    }

    /// The whole tree as it is now.
    pub open spec fn tree_shape(&self) -> Shape<T> {
        self.inner.tree.shape()
    }

    /// A cursor at the root of `tree`.
    pub fn new(tree: &'a mut DoublyLinkedBinaryTree<T>) -> (c: Self)
        ensures
            c.wf(),
            c.inner.path@ == Seq::<bool>::empty(),
            *c.inner.tree == old(tree).tree,
            *final(c.inner.tree) == final(tree).tree,
    {
        CursorMut { inner: LinkedCursorMut::new(&mut tree.tree) }
    }

    /// A read-only cursor at the same position.
    pub fn cursor(&self) -> (c: LinkedCursor<'_, T>)
        ensures
            c.subtree() == self.subtree(),
    {
        self.inner.cursor()
    }

    /// The value at the cursor, or `None` at an empty position.
    pub fn as_ref(&self) -> (r: Option<&T>)
        ensures
            deref_opt(r) == self.subtree().root(),
    {
        self.inner.as_ref()
    }

    /// Whether the subtree at the cursor is empty.
    pub fn is_empty_subtree(&self) -> (b: bool)
        ensures
            b <==> self.subtree() is Empty,
    {
        self.inner.is_empty_subtree()
    }

    /// The value of the left child, or `None` when there is none.
    pub fn left(&self) -> (r: Option<&T>)
        ensures
            deref_opt(r) == self.subtree().left().root(),
    {
        self.inner.left()
    }

    /// The value of the right child, or `None` when there is none.
    pub fn right(&self) -> (r: Option<&T>)
        ensures
            deref_opt(r) == self.subtree().right().root(),
    {
        self.inner.right()
    }

    /// The value at the parent of the cursor's position, or `None` at the root.
    pub fn parent(&self) -> (r: Option<&T>)
        ensures
            self.inner.path@.len() == 0 ==> r is None,
            self.inner.path@.len() > 0 ==> deref_opt(r) == subtree_at(
                self.tree_shape(),
                self.inner.path@.drop_last(),
                0,
            ).root(),
    {
        let n = self.inner.path.len();
        if n == 0 {
            None
        } else {
            let up = prefix(&self.inner.path, n - 1);
            proof {
                assert(up@ =~= self.inner.path@.drop_last());
            }
            let tree: &LinkedBinaryTree<T> = &*self.inner.tree;
            LinkedCursor::at_path(tree, &up).into_ref()
        }
    }

    /// Moves to the left subtree; does nothing at an empty position.
    pub fn move_left(&mut self)
        requires
            old(self).wf(),
        ensures
            final(self).wf(),
            *final(self).inner.tree == *old(self).inner.tree,
            *final(final(self).inner.tree) == *final(old(self).inner.tree),
            old(self).subtree() is Node ==> final(self).inner.path@ == old(self).inner.path@.push(true)
                && final(self).subtree() == old(self).subtree().left(),
            old(self).subtree() is Empty ==> final(self).inner.path@ == old(self).inner.path@,
    {
        self.inner.move_left();
    }

    /// Moves to the right subtree; does nothing at an empty position.
    pub fn move_right(&mut self)
        requires
            old(self).wf(),
        ensures
            final(self).wf(),
            *final(self).inner.tree == *old(self).inner.tree,
            *final(final(self).inner.tree) == *final(old(self).inner.tree),
            old(self).subtree() is Node ==> final(self).inner.path@ == old(self).inner.path@.push(false)
                && final(self).subtree() == old(self).subtree().right(),
            old(self).subtree() is Empty ==> final(self).inner.path@ == old(self).inner.path@,
    {
        self.inner.move_right();
    }

    /// Moves to the parent of the cursor's position; does nothing at the root.
    pub fn move_parent(&mut self)
        requires
            old(self).wf(),
        ensures
            final(self).wf(),
            *final(self).inner.tree == *old(self).inner.tree,
            *final(final(self).inner.tree) == *final(old(self).inner.tree),
            old(self).inner.path@.len() == 0 ==> final(self).inner.path@ == old(self).inner.path@,
            old(self).inner.path@.len() > 0 ==> final(self).inner.path@ == old(self).inner.path@.drop_last()
                && final(self).subtree() is Node && old(self).subtree() == if old(self).inner.path@.last() {
                final(self).subtree().left()
            } else {
                final(self).subtree().right()
            },
    {
        if self.inner.path.len() > 0 {
            proof {
                let p = self.inner.path@;
                lemma_path_pop(self.tree_shape(), p, 0);
                lemma_path_push(self.tree_shape(), p.drop_last(), 0, p.last());
                assert(p.drop_last().push(p.last()) =~= p);
            }
            self.inner.path.pop();
        }
    }

    /// A mutable reference to the value at the cursor, or `None` at an empty position.
    pub fn as_mut(&mut self) -> (r: Option<&mut T>)
        requires
            old(self).wf(),
        ensures
            final(self).inner.path == old(self).inner.path,
            *final(final(self).inner.tree) == *final(old(self).inner.tree),
            deref_opt_mut(r) == old(self).subtree().root(),
            r matches Some(x) ==> final(self).tree_shape() == old(self).with_subtree(
                Shape::Node(
                    Box::new(old(self).subtree().left()),
                    *final(x),
                    Box::new(old(self).subtree().right()),
                ),
            ),
            r is None ==> final(self).tree_shape() == old(self).tree_shape(),
    {
        self.inner.as_mut()
    }

    /// Inserts `elem` at the cursor when its position is empty and returns `None`;
    /// otherwise changes nothing and gives `elem` back.
    pub fn insert_as_root(&mut self, elem: T) -> (r: Option<T>)
        requires
            old(self).wf(),
        ensures
            final(self).wf(),
            final(self).inner.path == old(self).inner.path,
            *final(final(self).inner.tree) == *final(old(self).inner.tree),
            old(self).subtree() is Empty ==> r is None && final(self).tree_shape() == old(self).with_subtree(
                Shape::Node(Box::new(Shape::Empty), elem, Box::new(Shape::Empty)),
            ),
            old(self).subtree() is Node ==> r == Some(elem) && final(self).tree_shape() == old(self).tree_shape(),
    {
        self.inner.insert_as_root(elem)
    }

    /// Inserts `elem` as the left child when the node at the cursor exists and has none,
    /// returning `None`; otherwise changes nothing and gives `elem` back.
    pub fn insert_as_left(&mut self, elem: T) -> (r: Option<T>)
        requires
            old(self).wf(),
        ensures
            final(self).wf(),
            final(self).inner.path == old(self).inner.path,
            *final(final(self).inner.tree) == *final(old(self).inner.tree),
            old(self).subtree() is Node && old(self).subtree().left() is Empty ==> r is None && final(self).tree_shape()
                == old(self).with_subtree(
                set_left(old(self).subtree(), Shape::Node(Box::new(Shape::Empty), elem, Box::new(Shape::Empty))),
            ),
            !(old(self).subtree() is Node && old(self).subtree().left() is Empty) ==> r == Some(elem)
                && final(self).tree_shape() == old(self).tree_shape(),
    {
        self.inner.insert_as_left(elem)
    }

    /// Inserts `elem` as the right child when the node at the cursor exists and has none,
    /// returning `None`; otherwise changes nothing and gives `elem` back.
    pub fn insert_as_right(&mut self, elem: T) -> (r: Option<T>)
        requires
            old(self).wf(),
        ensures
            final(self).wf(),
            final(self).inner.path == old(self).inner.path,
            *final(final(self).inner.tree) == *final(old(self).inner.tree),
            old(self).subtree() is Node && old(self).subtree().right() is Empty ==> r is None && final(self).tree_shape()
                == old(self).with_subtree(
                set_right(old(self).subtree(), Shape::Node(Box::new(Shape::Empty), elem, Box::new(Shape::Empty))),
            ),
            !(old(self).subtree() is Node && old(self).subtree().right() is Empty) ==> r == Some(elem)
                && final(self).tree_shape() == old(self).tree_shape(),
    {
        self.inner.insert_as_right(elem)
    }

    /// Takes the whole subtree at the cursor out as a new tree, leaving the position empty.
    pub fn take(&mut self) -> (r: DoublyLinkedBinaryTree<T>)
        requires
            old(self).wf(),
        ensures
            final(self).wf(),
            final(self).inner.path == old(self).inner.path,
            *final(final(self).inner.tree) == *final(old(self).inner.tree),
            r.shape() == old(self).subtree(),
            final(self).tree_shape() == old(self).with_subtree(Shape::Empty),
    {
        DoublyLinkedBinaryTree { tree: self.inner.take() }
    }

    /// Takes the left subtree out as a new tree; `None` when the cursor's position is empty.
    pub fn take_left(&mut self) -> (r: Option<DoublyLinkedBinaryTree<T>>)
        requires
            old(self).wf(),
        ensures
            final(self).wf(),
            final(self).inner.path == old(self).inner.path,
            *final(final(self).inner.tree) == *final(old(self).inner.tree),
            old(self).subtree() is Empty ==> r is None && final(self).tree_shape() == old(self).tree_shape(),
            old(self).subtree() is Node ==> (r matches Some(t) && t.shape() == old(self).subtree().left()
                && final(self).tree_shape() == old(self).with_subtree(set_left(old(self).subtree(), Shape::Empty))),
    {
        match self.inner.take_left() {
            Some(t) => Some(DoublyLinkedBinaryTree { tree: t }),
            None => None,
        }
    }

    /// Takes the right subtree out as a new tree; `None` when the cursor's position is empty.
    pub fn take_right(&mut self) -> (r: Option<DoublyLinkedBinaryTree<T>>)
        requires
            old(self).wf(),
        ensures
            final(self).wf(),
            final(self).inner.path == old(self).inner.path,
            *final(final(self).inner.tree) == *final(old(self).inner.tree),
            old(self).subtree() is Empty ==> r is None && final(self).tree_shape() == old(self).tree_shape(),
            old(self).subtree() is Node ==> (r matches Some(t) && t.shape() == old(self).subtree().right()
                && final(self).tree_shape() == old(self).with_subtree(set_right(old(self).subtree(), Shape::Empty))),
    {
        match self.inner.take_right() {
            Some(t) => Some(DoublyLinkedBinaryTree { tree: t }),
            None => None,
        }
    }

    /// Attaches `other` as the subtree at the cursor, whose position must be empty.
    pub fn append(&mut self, other: DoublyLinkedBinaryTree<T>)
        requires
            old(self).wf(),
            old(self).subtree() is Empty,
        ensures
            final(self).wf(),
            final(self).inner.path == old(self).inner.path,
            *final(final(self).inner.tree) == *final(old(self).inner.tree),
            final(self).tree_shape() == old(self).with_subtree(other.shape()),
    {
        self.inner.append(other.tree)
    }

    /// Attaches `other` as the left subtree of the node at the cursor, which must exist and
    /// have an empty left subtree.
    pub fn append_left(&mut self, other: DoublyLinkedBinaryTree<T>)
        requires
            old(self).wf(),
            old(self).subtree() is Node,
            old(self).subtree().left() is Empty,
        ensures
            final(self).wf(),
            final(self).inner.path == old(self).inner.path,
            *final(final(self).inner.tree) == *final(old(self).inner.tree),
            final(self).tree_shape() == old(self).with_subtree(set_left(old(self).subtree(), other.shape())),
    {
        self.inner.append_left(other.tree)
    }

    /// Attaches `other` as the right subtree of the node at the cursor, which must exist
    /// and have an empty right subtree.
    pub fn append_right(&mut self, other: DoublyLinkedBinaryTree<T>)
        requires
            old(self).wf(),
            old(self).subtree() is Node,
            old(self).subtree().right() is Empty,
        ensures
            final(self).wf(),
            final(self).inner.path == old(self).inner.path,
            *final(final(self).inner.tree) == *final(old(self).inner.tree),
            final(self).tree_shape() == old(self).with_subtree(set_right(old(self).subtree(), other.shape())),
    {
        self.inner.append_right(other.tree)
    }

    /// The value at the cursor, for as long as the tree is borrowed.
    pub fn into_ref(self) -> (r: Option<&'a T>)
        ensures
            deref_opt(r) == self.subtree().root(),
            *final(self.inner.tree) == self.inner.current_tree(),
    {
        self.inner.into_ref()
    }

    /// Removes the whole subtree at the cursor and returns the value of its root.
    pub fn into_inner(self) -> (r: Option<T>)
        requires
            self.wf(),
        ensures
            r == self.subtree().root(),
            (*final(self.inner.tree)).shape() == self.with_subtree(Shape::Empty),
    {
        self.inner.into_inner()
    }
}

} // verus!
