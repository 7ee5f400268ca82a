//! Cursors over a linked binary tree.

use vstd::prelude::*;
use super::{LinkedBinaryTree, Node, link_shape, node_shape};
use super::super::{Shape, deref_opt, deref_opt_mut, subtree_at, replace_at, valid_path, rotate_left, rotate_right, lemma_path_push, lemma_replace_same, set_root, set_left, set_right, leaf};

verus! {

/// The subtree of a node reached by following `path[i..]`, if it exists.
fn node_at<'b, T>(link: &'b Option<Box<Node<T>>>, path: &Vec<bool>, i: usize) -> (r: Option<&'b Node<T>>)
    requires
        i <= path@.len(),
    ensures
        match r {
            Some(n) => node_shape(*n) == subtree_at(link_shape(*link), path@, i as int),
            None => subtree_at(link_shape(*link), path@, i as int) is Empty,
        },
    decreases path@.len() - i,
{
    match link {
        None => None,
        Some(node) => {
            if i == path.len() {
                Some(&**node)
            } else if path[i] {
                node_at(&node.left, path, i + 1)
            } else {
                node_at(&node.right, path, i + 1)
            }
        },
    }
}

/// The slot reached by following `path[i..]`.
fn slot_at<'b, T>(link: &'b mut Option<Box<Node<T>>>, path: &Vec<bool>, i: usize) -> (r: &'b mut Option<Box<Node<T>>>)
    requires
        i <= path@.len(),
        valid_path(link_shape(*old(link)), path@, i as int),
    ensures
        link_shape(*r) == subtree_at(link_shape(*old(link)), path@, i as int),
        link_shape(*final(link)) == replace_at(link_shape(*old(link)), path@, i as int, link_shape(*final(r))),
    decreases path@.len() - i,
{
    if i == path.len() {
        link
    } else {
        match link {
            Some(node) => {
                if path[i] {
                    slot_at(&mut node.left, path, i + 1)
                } else {
                    slot_at(&mut node.right, path, i + 1)
                }
            },
            None => {
                link
            },
        }
    }
}

/// Appends the values of a tree to `out` in pre-order.
fn pre_order_link<T: Copy>(link: &Option<Box<Node<T>>>, out: &mut Vec<T>)
    ensures
        final(out)@ == old(out)@ + link_shape(*link).pre_order(),
    decreases link,
{
    match link {
        None => {
            assert(final(out)@ =~= old(out)@ + link_shape(*link).pre_order());
        },
        Some(node) => {
            out.push(node.elem);
            pre_order_link(&node.left, out);
            pre_order_link(&node.right, out);
            assert(final(out)@ =~= old(out)@ + link_shape(*link).pre_order());
        },
    }
}

/// Appends the values of a tree to `out` in symmetric order.
fn mid_order_link<T: Copy>(link: &Option<Box<Node<T>>>, out: &mut Vec<T>)
    ensures
        final(out)@ == old(out)@ + link_shape(*link).mid_order(),
    decreases link,
{
    match link {
        None => {
            assert(final(out)@ =~= old(out)@ + link_shape(*link).mid_order());
        },
        Some(node) => {
            mid_order_link(&node.left, out);
            out.push(node.elem);
            mid_order_link(&node.right, out);
            assert(final(out)@ =~= old(out)@ + link_shape(*link).mid_order());
        },
    }
}

/// Appends the values of a tree to `out` in post-order.
fn post_order_link<T: Copy>(link: &Option<Box<Node<T>>>, out: &mut Vec<T>)
    ensures
        final(out)@ == old(out)@ + link_shape(*link).post_order(),
    decreases link,
{
    match link {
        None => {
            assert(final(out)@ =~= old(out)@ + link_shape(*link).post_order());
        },
        Some(node) => {
            post_order_link(&node.left, out);
            post_order_link(&node.right, out);
            out.push(node.elem);
            assert(final(out)@ =~= old(out)@ + link_shape(*link).post_order());
        },
    }
}

/// Appends to `out` the values of the nodes at depth `d`, left to right.
fn level_link<T: Copy>(link: &Option<Box<Node<T>>>, d: usize, out: &mut Vec<T>)
    ensures
        final(out)@ == old(out)@ + link_shape(*link).level(d as nat),
    decreases link,
{
    match link {
        None => {
            assert(final(out)@ =~= old(out)@ + link_shape(*link).level(d as nat));
        },
        Some(node) => {
            if d == 0 {
                out.push(node.elem);
            } else {
                level_link(&node.left, d - 1, out);
                level_link(&node.right, d - 1, out);
            }
            assert(final(out)@ =~= old(out)@ + link_shape(*link).level(d as nat));
        },
    }
}

/// Number of levels of a tree, when it fits in a `usize`.
fn height_link<T>(link: &Option<Box<Node<T>>>) -> (h: usize)
    requires
        link_shape(*link).height() <= usize::MAX,
    ensures
        h == link_shape(*link).height(),
    decreases link,
{
    match link {
        None => 0,
        Some(node) => {
            let hl = height_link(&node.left);
            let hr = height_link(&node.right);
            1 + if hl >= hr {
                hl
            } else {
                hr
            }
        },
    }
}

/// A read-only cursor: the subtree at a node of a linked tree, or an empty position.
pub struct Cursor<'a, T> {
    current: Option<&'a Node<T>>,
}

impl<'a, T> Cursor<'a, T> {
    /// The subtree at the cursor.
    pub closed spec fn subtree(&self) -> Shape<T> {
        match self.current {
            Some(n) => node_shape(*n),
            None => Shape::Empty,
        }
    }

    /// A cursor at the root of `tree`.
    pub fn new(tree: &'a LinkedBinaryTree<T>) -> (c: Self)
        ensures
            c.subtree() == tree.shape(),
    {
        match &tree.root {
            Some(node) => Cursor { current: Some(&**node) },
            None => Cursor { current: None },
        }
    }

    /// A cursor at the position reached from the root of `tree` by `path`.
    pub(crate) fn at_path(tree: &'a LinkedBinaryTree<T>, path: &Vec<bool>) -> (c: Self)
        ensures
            c.subtree() == subtree_at(tree.shape(), path@, 0),
    {
        Cursor { current: node_at(&tree.root, path, 0) }
    }

    /// A copy of the cursor.
    pub fn duplicate(&self) -> (c: Self)
        ensures
            c.subtree() == self.subtree(),
    {
        Cursor { current: self.current }
    }

    /// The value at the cursor, or `None` at an empty position.
    pub fn as_ref(&self) -> (r: Option<&T>)
        ensures
            deref_opt(r) == self.subtree().root(),
    {
        match self.current {
            Some(node) => Some(&node.elem),
            None => None,
        }
    }

    /// Whether the subtree at the cursor is empty.
    pub fn is_empty_subtree(&self) -> (b: bool)
        ensures
            b <==> self.subtree() is Empty,
    {
        self.current.is_none()
    }

    /// The value of the left child, or `None` when there is none.
    pub fn left(&self) -> (r: Option<&T>)
        ensures
            deref_opt(r) == self.subtree().left().root(),
    {
        match self.current {
            Some(node) => match &node.left {
                Some(l) => Some(&l.elem),
                None => None,
            },
            None => None,
        }
    }

    /// The value of the right child, or `None` when there is none.
    pub fn right(&self) -> (r: Option<&T>)
        ensures
            deref_opt(r) == self.subtree().right().root(),
    {
        match self.current {
            Some(node) => match &node.right {
                Some(l) => Some(&l.elem),
                None => None,
            },
            None => None,
        }
    }

    /// Whether the node at the cursor has no child.
    pub fn is_leaf(&self) -> (b: bool)
        ensures
            b <==> self.subtree().left() is Empty && self.subtree().right() is Empty,
    {
        self.left().is_none() && self.right().is_none()
    }

    /// Moves to the left subtree; does nothing at an empty position.
    pub fn move_left(&mut self)
        ensures
            old(self).subtree() is Node ==> final(self).subtree() == old(self).subtree().left(),
            old(self).subtree() is Empty ==> final(self).subtree() is Empty,
    {
        self.current = match self.current {
            Some(node) => match &node.left {
                Some(l) => Some(&**l),
                None => None,
            },
            None => None,
        };
    }

    /// Moves to the right subtree; does nothing at an empty position.
    pub fn move_right(&mut self)
        ensures
            old(self).subtree() is Node ==> final(self).subtree() == old(self).subtree().right(),
            old(self).subtree() is Empty ==> final(self).subtree() is Empty,
    {
        self.current = match self.current {
            Some(node) => match &node.right {
                Some(r) => Some(&**r),
                None => None,
            },
            None => None,
        };
    }

    /// Moves to the in-order successor within the subtree: the leftmost node of the right
    /// subtree; does nothing when there is no right child.
    pub fn move_succ(&mut self)
        ensures
            old(self).subtree().right() is Empty ==> final(self).subtree() == old(self).subtree(),
            old(self).subtree().right() is Node ==> final(self).subtree() is Node && final(self).subtree().left() is Empty,
    {
        if self.right().is_some() {
            self.move_right();
            while self.left().is_some()
                invariant
                    self.subtree() is Node,
                decreases self.subtree().size(),
            {
                self.move_left();
            }
        }
    }

    /// The value at the cursor, for as long as the tree is borrowed.
    pub fn into_ref(self) -> (r: Option<&'a T>)
        ensures
            deref_opt(r) == self.subtree().root(),
    {
        match self.current {
            Some(node) => Some(&node.elem),
            None => None,
        }
    }

    /// Cursors at the left and right subtrees, each `None` when that subtree is empty.
    pub fn split(&self) -> (r: (Option<Self>, Option<Self>))
        ensures
            r.0 is Some <==> self.subtree().left() is Node,
            r.1 is Some <==> self.subtree().right() is Node,
            r.0 matches Some(c) ==> c.subtree() == self.subtree().left(),
            r.1 matches Some(c) ==> c.subtree() == self.subtree().right(),
    {
        if self.is_empty_subtree() {
            (None, None)
        } else {
            let left = if self.left().is_some() {
                let mut child = self.duplicate();
                child.move_left();
                Some(child)
            } else {
                None
            };
            let right = if self.right().is_some() {
                let mut child = self.duplicate();
                child.move_right();
                Some(child)
            } else {
                None
            };
            (left, right)
        }
    }

    /// The values of the subtree in level order (depth by depth, left to right).
    pub fn in_order_iter(&self) -> (r: Vec<T>)
        where
            T: Copy,
        requires
            self.subtree().height() <= usize::MAX,
        ensures
            r@ == self.subtree().level_order(),
    {
        let link: Option<Box<Node<T>>> = None;
        let mut out: Vec<T> = Vec::new();
        match self.current {
            None => {
                assert(out@ =~= self.subtree().level_order());
            },
            Some(node) => {
                let hl = height_link(&node.left);
                let hr = height_link(&node.right);
                let h = 1 + if hl >= hr { hl } else { hr };
                let mut d: usize = 0;
                while d < h
                    invariant
                        d <= h,
                        h == self.subtree().height(),
                        self.subtree() == node_shape(*node),
                        out@ == self.subtree().levels_upto(d as nat),
                    decreases h - d,
                {
                    if d == 0 {
                        out.push(node.elem);
                        assert(out@ =~= self.subtree().levels_upto(1));
                    } else {
                        let ghost before = out@;
                        level_link(&node.left, d - 1, &mut out);
                        level_link(&node.right, d - 1, &mut out);
                        assert(out@ =~= self.subtree().levels_upto((d + 1) as nat));
                    }
                    d = d + 1;
                }
            },
        }
        out
    }

    /// The values of the subtree in pre-order.
    pub fn pre_order_iter(&self) -> (r: Vec<T>)
        where
            T: Copy,
        ensures
            r@ == self.subtree().pre_order(),
    {
        let mut out = Vec::new();
        match self.current {
            None => {},
            Some(node) => {
                out.push(node.elem);
                pre_order_link(&node.left, &mut out);
                pre_order_link(&node.right, &mut out);
            },
        }
        assert(out@ =~= self.subtree().pre_order());
        out
    }

    /// The values of the subtree in symmetric (in-) order.
    pub fn mid_order_iter(&self) -> (r: Vec<T>)
        where
            T: Copy,
        ensures
            r@ == self.subtree().mid_order(),
    {
        let mut out = Vec::new();
        match self.current {
            None => {},
            Some(node) => {
                mid_order_link(&node.left, &mut out);
                out.push(node.elem);
                mid_order_link(&node.right, &mut out);
            },
        }
        assert(out@ =~= self.subtree().mid_order());
        out
    }

    /// The values of the subtree in post-order.
    pub fn post_order_iter(&self) -> (r: Vec<T>)
        where
            T: Copy,
        ensures
            r@ == self.subtree().post_order(),
    {
        let mut out = Vec::new();
        match self.current {
            None => {},
            Some(node) => {
                post_order_link(&node.left, &mut out);
                post_order_link(&node.right, &mut out);
                out.push(node.elem);
            },
        }
        assert(out@ =~= self.subtree().post_order());
        out
    }
}

/// A cursor that can change the tree: a mutably borrowed linked tree and the directions
/// (`true` for left) from its root to the cursor's position.
pub struct CursorMut<'a, T> {
    /// The borrowed tree.
    pub tree: &'a mut LinkedBinaryTree<T>,
    /// Directions from the root to the cursor's position.
    pub path: Vec<bool>,
}

impl<'a, T> CursorMut<'a, T> {
    /// The tree as it is now.
    pub open spec fn current_tree(&self) -> LinkedBinaryTree<T> {
        *self.tree
    }

    /// Every node above the cursor's position exists.
    pub open spec fn wf(&self) -> bool {
        valid_path(self.tree.shape(), self.path@, 0)
    }

    /// The subtree at the cursor.
    pub open spec fn subtree(&self) -> Shape<T> {
        subtree_at(self.tree.shape(), self.path@, 0)
    }

    /// The whole tree with the subtree at the cursor replaced by `s`.
    pub open spec fn with_subtree(&self, s: Shape<T>) -> Shape<T> {
        replace_at(self.tree.shape(), self.path@, 0, s)
    }

    /// A cursor at the root of `tree`.
    pub fn new(tree: &'a mut LinkedBinaryTree<T>) -> (c: Self)
        ensures
            c.wf(),
            c.path@ == Seq::<bool>::empty(),
            *c.tree == *old(tree),
            *final(c.tree) == *final(tree),
    {
        CursorMut { tree, path: Vec::new() }
    }

    /// A read-only cursor at the same position.
    pub fn cursor(&self) -> (c: Cursor<'_, T>)
        ensures
            c.subtree() == self.subtree(),
    {
        Cursor { current: node_at(&self.tree.root, &self.path, 0) }
    }

    /// The value at the cursor, or `None` at an empty position.
    pub fn as_ref(&self) -> (r: Option<&T>)
        ensures
            deref_opt(r) == self.subtree().root(),
    {
        match node_at(&self.tree.root, &self.path, 0) {
            Some(node) => Some(&node.elem),
            None => None,
        }
    }

    /// Whether the subtree at the cursor is empty.
    pub fn is_empty_subtree(&self) -> (b: bool)
        ensures
            b <==> self.subtree() is Empty,
    {
        node_at(&self.tree.root, &self.path, 0).is_none()
    }

    /// The value of the left child, or `None` when there is none.
    pub fn left(&self) -> (r: Option<&T>)
        ensures
            deref_opt(r) == self.subtree().left().root(),
    {
        match node_at(&self.tree.root, &self.path, 0) {
            Some(node) => match &node.left {
                Some(l) => Some(&l.elem),
                None => None,
            },
            None => None,
        }
    }

    /// The value of the right child, or `None` when there is none.
    pub fn right(&self) -> (r: Option<&T>)
        ensures
            deref_opt(r) == self.subtree().right().root(),
    {
        match node_at(&self.tree.root, &self.path, 0) {
            Some(node) => match &node.right {
                Some(l) => Some(&l.elem),
                None => None,
            },
            None => None,
        }
    }

    /// Moves to the left subtree; does nothing at an empty position.
    pub fn move_left(&mut self)
        requires
            old(self).wf(),
        ensures
            final(self).wf(),
            *final(self).tree == *old(self).tree,
            *final(final(self).tree) == *final(old(self).tree),
            old(self).subtree() is Node ==> final(self).path@ == old(self).path@.push(true) && final(self).subtree()
                == old(self).subtree().left(),
            old(self).subtree() is Empty ==> final(self).path@ == old(self).path@,
    {
        if !self.is_empty_subtree() {
            proof {
                lemma_path_push(self.tree.shape(), self.path@, 0, true);
            }
            self.path.push(true);
        }
    }

    /// Moves to the right subtree; does nothing at an empty position.
    pub fn move_right(&mut self)
        requires
            old(self).wf(),
        ensures
            final(self).wf(),
            *final(self).tree == *old(self).tree,
            *final(final(self).tree) == *final(old(self).tree),
            old(self).subtree() is Node ==> final(self).path@ == old(self).path@.push(false) && final(self).subtree()
                == old(self).subtree().right(),
            old(self).subtree() is Empty ==> final(self).path@ == old(self).path@,
    {
        if !self.is_empty_subtree() {
            proof {
                lemma_path_push(self.tree.shape(), self.path@, 0, false);
            }
            self.path.push(false);
        }
    }

    /// The value at the cursor, for as long as the tree is borrowed.
    pub fn into_ref(self) -> (r: Option<&'a T>)
        ensures
            deref_opt(r) == self.subtree().root(),
            *final(self.tree) == self.current_tree(),
    {
        let CursorMut { tree, path } = self;
        let shared: &'a LinkedBinaryTree<T> = tree;
        match node_at(&shared.root, &path, 0) {
            Some(node) => Some(&node.elem),
            None => None,
        }
    }

    /// A mutable reference to the value at the cursor, or `None` at an empty position.
    pub fn as_mut(&mut self) -> (r: Option<&mut T>)
        requires
            old(self).wf(),
        ensures
            final(self).path == old(self).path,
            *final(final(self).tree) == *final(old(self).tree),
            deref_opt_mut(r) == old(self).subtree().root(),
            r matches Some(x) ==> final(self).tree.shape() == old(self).with_subtree(
                Shape::Node(
                    Box::new(old(self).subtree().left()),
                    *final(x),
                    Box::new(old(self).subtree().right()),
                ),
            ),
            r is None ==> final(self).tree.shape() == old(self).tree.shape(),
    {
        proof {
            reveal_with_fuel(link_shape, 3);
            lemma_replace_same(self.tree.shape(), self.path@, 0);
        }
        let slot = slot_at(&mut self.tree.root, &self.path, 0);
        match slot {
            Some(node) => Some(&mut node.elem),
            None => None,
        }
    }

    /// Inserts `elem` at the cursor when its position is empty and returns `None`;
    /// otherwise changes nothing and gives `elem` back.
    pub fn insert_as_root(&mut self, elem: T) -> (r: Option<T>)
        requires
            old(self).wf(),
        ensures
            final(self).wf(),
            final(self).path == old(self).path,
            *final(final(self).tree) == *final(old(self).tree),
            old(self).subtree() is Empty ==> r is None && final(self).tree.shape() == old(self).with_subtree(
                Shape::Node(Box::new(Shape::Empty), elem, Box::new(Shape::Empty)),
            ),
            old(self).subtree() is Node ==> r == Some(elem) && final(self).tree.shape() == old(self).tree.shape(),
    {
        let ghost t0 = self.tree.shape();
        proof {
            lemma_replace_keeps_path(t0, self.path@, 0, Shape::Node(Box::new(Shape::Empty), elem, Box::new(Shape::Empty)));
        }
        let slot = slot_at(&mut self.tree.root, &self.path, 0);
        let r = match slot {
            None => {
                *slot = Some(Box::new(Node { left: None, right: None, elem }));
                None
            },
            Some(_) => Some(elem),
        };
        proof {
            lemma_replace_same(t0, self.path@, 0);
        }
        r
    }

    /// Whether the node at the cursor has no child.
    pub fn is_leaf(&self) -> (b: bool)
        ensures
            b <==> self.subtree().left() is Empty && self.subtree().right() is Empty,
    {
        self.left().is_none() && self.right().is_none()
    }

    /// A mutable reference to the value of the left child, or `None` when there is none.
    pub fn left_mut(&mut self) -> (r: Option<&mut T>)
        requires
            old(self).wf(),
        ensures
            final(self).path == old(self).path,
            *final(final(self).tree) == *final(old(self).tree),
            deref_opt_mut(r) == old(self).subtree().left().root(),
            r matches Some(x) ==> final(self).tree.shape() == old(self).with_subtree(
                set_left(old(self).subtree(), set_root(old(self).subtree().left(), *final(x))),
            ),
            r is None ==> final(self).tree.shape() == old(self).tree.shape(),
    {
        proof {
            reveal_with_fuel(link_shape, 3);
            lemma_replace_same(self.tree.shape(), self.path@, 0);
        }
        let slot = slot_at(&mut self.tree.root, &self.path, 0);
        match slot {
            Some(node) => match &mut node.left {
                Some(l) => Some(&mut l.elem),
                None => None,
            },
            None => None,
        }
    }

    /// A mutable reference to the value of the right child, or `None` when there is none.
    pub fn right_mut(&mut self) -> (r: Option<&mut T>)
        requires
            old(self).wf(),
        ensures
            final(self).path == old(self).path,
            *final(final(self).tree) == *final(old(self).tree),
            deref_opt_mut(r) == old(self).subtree().right().root(),
            r matches Some(x) ==> final(self).tree.shape() == old(self).with_subtree(
                set_right(old(self).subtree(), set_root(old(self).subtree().right(), *final(x))),
            ),
            r is None ==> final(self).tree.shape() == old(self).tree.shape(),
    {
        proof {
            reveal_with_fuel(link_shape, 3);
            lemma_replace_same(self.tree.shape(), self.path@, 0);
        }
        let slot = slot_at(&mut self.tree.root, &self.path, 0);
        match slot {
            Some(node) => match &mut node.right {
                Some(l) => Some(&mut l.elem),
                None => None,
            },
            None => None,
        }
    }

    /// A mutable reference to the value at the cursor that outlives the cursor.
    pub fn into_mut(self) -> (r: Option<&'a mut T>)
        requires
            self.wf(),
        ensures
            deref_opt_mut(r) == self.subtree().root(),
            r matches Some(x) ==> (*final(self.tree)).shape() == self.with_subtree(set_root(self.subtree(), *final(x))),
            r is None ==> (*final(self.tree)).shape() == self.current_tree().shape(),
    {
        proof {
            reveal_with_fuel(link_shape, 3);
            lemma_replace_same(self.tree.shape(), self.path@, 0);
        }
        let CursorMut { tree, path } = self;
        let slot = slot_at(&mut tree.root, &path, 0);
        match slot {
            Some(node) => Some(&mut node.elem),
            None => None,
        }
    }

    /// Inserts `elem` as the left child when the cursor's position holds a node without a
    /// left child, and returns `None`; otherwise changes nothing and gives `elem` back.
    pub fn insert_as_left(&mut self, elem: T) -> (r: Option<T>)
        requires
            old(self).wf(),
        ensures
            final(self).wf(),
            final(self).path == old(self).path,
            *final(final(self).tree) == *final(old(self).tree),
            old(self).subtree() is Node && old(self).subtree().left() is Empty ==> r is None && final(self).tree.shape()
                == old(self).with_subtree(set_left(old(self).subtree(), leaf(elem))),
            !(old(self).subtree() is Node && old(self).subtree().left() is Empty) ==> r == Some(elem)
                && final(self).tree.shape() == old(self).tree.shape(),
    {
        proof {
            reveal_with_fuel(link_shape, 3);
            lemma_replace_same(self.tree.shape(), self.path@, 0);
            lemma_replace_keeps_path_all(self.tree.shape(), self.path@);
        }
        let slot = slot_at(&mut self.tree.root, &self.path, 0);
        match slot {
            Some(node) => {
                if node.left.is_none() {
                    node.left = Some(Box::new(Node { left: None, right: None, elem }));
                    None
                } else {
                    Some(elem)
                }
            },
            None => Some(elem),
        }
    }

    /// Inserts `elem` as the right child when the cursor's position holds a node without a
    /// right child, and returns `None`; otherwise changes nothing and gives `elem` back.
    pub fn insert_as_right(&mut self, elem: T) -> (r: Option<T>)
        requires
            old(self).wf(),
        ensures
            final(self).wf(),
            final(self).path == old(self).path,
            *final(final(self).tree) == *final(old(self).tree),
            old(self).subtree() is Node && old(self).subtree().right() is Empty ==> r is None && final(self).tree.shape()
                == old(self).with_subtree(set_right(old(self).subtree(), leaf(elem))),
            !(old(self).subtree() is Node && old(self).subtree().right() is Empty) ==> r == Some(elem)
                && final(self).tree.shape() == old(self).tree.shape(),
    {
        proof {
            reveal_with_fuel(link_shape, 3);
            lemma_replace_same(self.tree.shape(), self.path@, 0);
            lemma_replace_keeps_path_all(self.tree.shape(), self.path@);
        }
        let slot = slot_at(&mut self.tree.root, &self.path, 0);
        match slot {
            Some(node) => {
                if node.right.is_none() {
                    node.right = Some(Box::new(Node { left: None, right: None, elem }));
                    None
                } else {
                    Some(elem)
                }
            },
            None => Some(elem),
        }
    }

    /// Takes the whole subtree at the cursor out as a new tree, leaving the position empty.
    pub fn take(&mut self) -> (r: LinkedBinaryTree<T>)
        requires
            old(self).wf(),
        ensures
            final(self).wf(),
            final(self).path == old(self).path,
            *final(final(self).tree) == *final(old(self).tree),
            r.shape() == old(self).subtree(),
            final(self).tree.shape() == old(self).with_subtree(Shape::Empty),
    {
        proof {
            reveal_with_fuel(link_shape, 3);
            lemma_replace_keeps_path_all(self.tree.shape(), self.path@);
        }
        let slot = slot_at(&mut self.tree.root, &self.path, 0);
        let node = slot.take();
        LinkedBinaryTree { root: node }
    }

    /// Takes the left subtree out as a new tree; `None` when the cursor's position is empty.
    pub fn take_left(&mut self) -> (r: Option<LinkedBinaryTree<T>>)
        requires
            old(self).wf(),
        ensures
            final(self).wf(),
            final(self).path == old(self).path,
            *final(final(self).tree) == *final(old(self).tree),
            old(self).subtree() is Empty ==> r is None && final(self).tree.shape() == old(self).tree.shape(),
            old(self).subtree() is Node ==> (r matches Some(t) && t.shape() == old(self).subtree().left()
                && final(self).tree.shape() == old(self).with_subtree(set_left(old(self).subtree(), Shape::Empty))),
    {
        proof {
            reveal_with_fuel(link_shape, 3);
            lemma_replace_same(self.tree.shape(), self.path@, 0);
            lemma_replace_keeps_path_all(self.tree.shape(), self.path@);
        }
        let slot = slot_at(&mut self.tree.root, &self.path, 0);
        match slot {
            Some(node) => Some(LinkedBinaryTree { root: node.left.take() }),
            None => None,
        }
    }

    /// Takes the right subtree out as a new tree; `None` when the cursor's position is empty.
    pub fn take_right(&mut self) -> (r: Option<LinkedBinaryTree<T>>)
        requires
            old(self).wf(),
        ensures
            final(self).wf(),
            final(self).path == old(self).path,
            *final(final(self).tree) == *final(old(self).tree),
            old(self).subtree() is Empty ==> r is None && final(self).tree.shape() == old(self).tree.shape(),
            old(self).subtree() is Node ==> (r matches Some(t) && t.shape() == old(self).subtree().right()
                && final(self).tree.shape() == old(self).with_subtree(set_right(old(self).subtree(), Shape::Empty))),
    {
        proof {
            reveal_with_fuel(link_shape, 3);
            lemma_replace_same(self.tree.shape(), self.path@, 0);
            lemma_replace_keeps_path_all(self.tree.shape(), self.path@);
        }
        let slot = slot_at(&mut self.tree.root, &self.path, 0);
        match slot {
            Some(node) => Some(LinkedBinaryTree { root: node.right.take() }),
            None => None,
        }
    }

    /// Attaches `other` as the subtree at the cursor, whose position must be empty.
    pub fn append(&mut self, other: LinkedBinaryTree<T>)
        requires
            old(self).wf(),
            old(self).subtree() is Empty,
        ensures
            final(self).wf(),
            final(self).path == old(self).path,
            *final(final(self).tree) == *final(old(self).tree),
            final(self).tree.shape() == old(self).with_subtree(other.shape()),
    {
        proof {
            reveal_with_fuel(link_shape, 3);
            lemma_replace_keeps_path_all(self.tree.shape(), self.path@);
        }
        let slot = slot_at(&mut self.tree.root, &self.path, 0);
        *slot = other.root;
    }

    /// Attaches `other` as the left subtree of the node at the cursor, which must exist and
    /// have an empty left subtree.
    pub fn append_left(&mut self, other: LinkedBinaryTree<T>)
        requires
            old(self).wf(),
            old(self).subtree() is Node,
            old(self).subtree().left() is Empty,
        ensures
            final(self).wf(),
            final(self).path == old(self).path,
            *final(final(self).tree) == *final(old(self).tree),
            final(self).tree.shape() == old(self).with_subtree(set_left(old(self).subtree(), other.shape())),
    {
        proof {
            reveal_with_fuel(link_shape, 3);
            lemma_replace_keeps_path_all(self.tree.shape(), self.path@);
        }
        let slot = slot_at(&mut self.tree.root, &self.path, 0);
        match slot {
            Some(node) => {
                node.left = other.root;
            },
            None => {},
        }
    }

    /// Attaches `other` as the right subtree of the node at the cursor, which must exist
    /// and have an empty right subtree.
    pub fn append_right(&mut self, other: LinkedBinaryTree<T>)
        requires
            old(self).wf(),
            old(self).subtree() is Node,
            old(self).subtree().right() is Empty,
        ensures
            final(self).wf(),
            final(self).path == old(self).path,
            *final(final(self).tree) == *final(old(self).tree),
            final(self).tree.shape() == old(self).with_subtree(set_right(old(self).subtree(), other.shape())),
    {
        proof {
            reveal_with_fuel(link_shape, 3);
            lemma_replace_keeps_path_all(self.tree.shape(), self.path@);
        }
        let slot = slot_at(&mut self.tree.root, &self.path, 0);
        match slot {
            Some(node) => {
                node.right = other.root;
            },
            None => {},
        }
    }

    /// Removes the whole subtree at the cursor and returns the value of its root.
    pub fn into_inner(self) -> (r: Option<T>)
        requires
            self.wf(),
        ensures
            r == self.subtree().root(),
            (*final(self.tree)).shape() == self.with_subtree(Shape::Empty),
    {
        let CursorMut { tree, path } = self;
        let slot = slot_at(&mut tree.root, &path, 0);
        match slot.take() {
            Some(node) => Some(node.elem),
            None => None,
        }
    }

    /// Rotates the subtree at the cursor clockwise (its left child rises); the cursor stays
    /// at the same position. Does nothing when the node or its left child is missing.
    pub fn zig(&mut self)
        requires
            old(self).wf(),
        ensures
            final(self).wf(),
            final(self).path == old(self).path,
            *final(final(self).tree) == *final(old(self).tree),
            final(self).tree.shape() == old(self).with_subtree(rotate_right(old(self).subtree())),
    {
        proof {
            reveal_with_fuel(link_shape, 3);
            lemma_replace_keeps_path_all(self.tree.shape(), self.path@);
        }
        let slot = slot_at(&mut self.tree.root, &self.path, 0);
        match slot.take() {
            Some(mut node) => {
                match node.left.take() {
                    Some(mut l) => {
                        node.left = l.right.take();
                        l.right = Some(node);
                        *slot = Some(l);
                    },
                    None => {
                        *slot = Some(node);
                    },
                }
            },
            None => {},
        }
    }

    /// Rotates the subtree at the cursor counter-clockwise (its right child rises); the
    /// cursor stays at the same position. Does nothing when the node or its right child is
    /// missing.
    pub fn zag(&mut self)
        requires
            old(self).wf(),
        ensures
            final(self).wf(),
            final(self).path == old(self).path,
            *final(final(self).tree) == *final(old(self).tree),
            final(self).tree.shape() == old(self).with_subtree(rotate_left(old(self).subtree())),
    {
        proof {
            reveal_with_fuel(link_shape, 3);
            lemma_replace_keeps_path_all(self.tree.shape(), self.path@);
        }
        let slot = slot_at(&mut self.tree.root, &self.path, 0);
        match slot.take() {
            Some(mut node) => {
                match node.right.take() {
                    Some(mut r) => {
                        node.right = r.left.take();
                        r.left = Some(node);
                        *slot = Some(r);
                    },
                    None => {
                        *slot = Some(node);
                    },
                }
            },
            None => {},
        }
    }
}

/// Replacing the subtree at the end of a valid path, by any subtree, keeps the path valid.
pub proof fn lemma_replace_keeps_path_all<T>(t: Shape<T>, p: Seq<bool>)
    requires
        valid_path(t, p, 0),
    ensures
        forall|s: Shape<T>|
            valid_path(#[trigger] replace_at(t, p, 0, s), p, 0) && subtree_at(replace_at(t, p, 0, s), p, 0) == s,
{
    assert forall|s: Shape<T>|
        valid_path(#[trigger] replace_at(t, p, 0, s), p, 0) && subtree_at(replace_at(t, p, 0, s), p, 0) == s by {
        lemma_replace_keeps_path(t, p, 0, s);
    }
}

/// Replacing the subtree at the end of a valid path keeps the path valid, and the new
/// subtree is found there.
pub proof fn lemma_replace_keeps_path<T>(t: Shape<T>, p: Seq<bool>, i: int, s: Shape<T>)
    requires
        0 <= i <= p.len(),
        valid_path(t, p, i),
    ensures
        valid_path(replace_at(t, p, i, s), p, i),
        subtree_at(replace_at(t, p, i, s), p, i) == s,
    decreases p.len() - i,
{
    if i < p.len() {
        match t {
            Shape::Node(l, _, r) => {
                if p[i] {
                    lemma_replace_keeps_path(*l, p, i + 1, s);
                } else {
                    lemma_replace_keeps_path(*r, p, i + 1, s);
                }
            },
            Shape::Empty => {},
        }
    }
}

} // verus!
