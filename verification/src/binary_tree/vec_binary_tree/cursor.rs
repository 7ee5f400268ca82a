//! Cursors over a vector tree: a position in the tree, read-only or able to change it.

use vstd::prelude::*;
use super::{VecBinaryTree, shape_at, max_positions, resized};
use super::iter::{InOrderIter, InOrderIndexIter, in_order_index, level_index, present_values, lemma_level_index_monotone, lemma_level_index_step, lemma_level_index_zero, lemma_level_index_children};
use super::super::{Shape, deref_opt, deref_opt_mut};
use super::level::{no_orphans, lemma_level_order_walk, lemma_taken_shape, lemma_empty_subtree, lemma_appended_shape};

verus! {

/// Position of the left child of position `index`.
pub fn left_index(index: usize) -> (r: usize)
    requires
        index <= (usize::MAX - 1) / 2,
    ensures
        r == 2 * index + 1,
{
    2 * index + 1
}

/// Position of the right child of position `index`.
pub fn right_index(index: usize) -> (r: usize)
    requires
        index <= (usize::MAX - 2) / 2,
    ensures
        r == 2 * index + 2,
{
    2 * index + 2
}

/// Position of the parent of position `index`.
pub fn parent_index(index: usize) -> (r: usize)
    requires
        index > 0,
    ensures
        r == (index - 1) / 2,
{
    (index - 1) / 2
}

/// The value at position `i` of a layout, if any.
pub open spec fn value_at<T>(s: Seq<Option<T>>, i: int) -> Option<T> {
    if 0 <= i < s.len() {
        s[i]
    } else {
        None
    }
}

/// Appends values to `out` in pre-order for the subtree at `i`.
fn pre_order_from<T: Copy>(tree: &VecBinaryTree<T>, i: usize, out: &mut Vec<T>)
    requires
        tree.wf(),
    ensures
        final(out)@ == old(out)@ + shape_at(tree@, i as int).pre_order(),
    decreases (if i < tree@.len() {
        tree@.len() - i
    } else {
        0
    }),
{
    if i < tree.inner.len() {
        match &tree.inner[i] {
            Some(x) => {
                out.push(*x);
                pre_order_from(tree, 2 * i + 1, out);
                pre_order_from(tree, 2 * i + 2, out);
                assert(final(out)@ =~= old(out)@ + shape_at(tree@, i as int).pre_order());
            },
            None => {
                assert(final(out)@ =~= old(out)@ + shape_at(tree@, i as int).pre_order());
            },
        }
    } else {
        assert(final(out)@ =~= old(out)@ + shape_at(tree@, i as int).pre_order());
    }
}

/// Appends values to `out` in symmetric order for the subtree at `i`.
fn mid_order_from<T: Copy>(tree: &VecBinaryTree<T>, i: usize, out: &mut Vec<T>)
    requires
        tree.wf(),
    ensures
        final(out)@ == old(out)@ + shape_at(tree@, i as int).mid_order(),
    decreases (if i < tree@.len() {
        tree@.len() - i
    } else {
        0
    }),
{
    if i < tree.inner.len() {
        match &tree.inner[i] {
            Some(x) => {
                mid_order_from(tree, 2 * i + 1, out);
                out.push(*x);
                mid_order_from(tree, 2 * i + 2, out);
                assert(final(out)@ =~= old(out)@ + shape_at(tree@, i as int).mid_order());
            },
            None => {
                assert(final(out)@ =~= old(out)@ + shape_at(tree@, i as int).mid_order());
            },
        }
    } else {
        assert(final(out)@ =~= old(out)@ + shape_at(tree@, i as int).mid_order());
    }
}

/// Appends values to `out` in post-order for the subtree at `i`.
fn post_order_from<T: Copy>(tree: &VecBinaryTree<T>, i: usize, out: &mut Vec<T>)
    requires
        tree.wf(),
    ensures
        final(out)@ == old(out)@ + shape_at(tree@, i as int).post_order(),
    decreases (if i < tree@.len() {
        tree@.len() - i
    } else {
        0
    }),
{
    if i < tree.inner.len() {
        match &tree.inner[i] {
            Some(x) => {
                post_order_from(tree, 2 * i + 1, out);
                post_order_from(tree, 2 * i + 2, out);
                out.push(*x);
                assert(final(out)@ =~= old(out)@ + shape_at(tree@, i as int).post_order());
            },
            None => {
                assert(final(out)@ =~= old(out)@ + shape_at(tree@, i as int).post_order());
            },
        }
    } else {
        assert(final(out)@ =~= old(out)@ + shape_at(tree@, i as int).post_order());
    }
}

/// The number of level-order numbers of the subtree at `base` whose positions lie
/// before `len`: all smaller numbers do, and this one does not.
pub open spec fn is_span(base: int, len: int, n: int) -> bool {
    &&& n >= 0
    &&& forall|k: int| 0 <= k < n ==> #[trigger] level_index(base, k) < len
    &&& level_index(base, n) >= len
}

/// Collects, in level order, the values of the subtree at `base`.
fn level_order_from<T: Copy>(tree: &VecBinaryTree<T>, base: usize) -> (r: Vec<T>)
    requires
        tree.wf(),
        base <= usize::MAX / 2,
    ensures
        exists|n: int| is_span(base as int, tree@.len() as int, n) && r@ == present_values(tree@, base as int, 0, n),
{
    let mut out: Vec<T> = Vec::new();
    let mut it = InOrderIter::new(base, tree);
    loop
        invariant
            it.wf(),
            it.spec_tree() == tree,
            it.spec_iter().spec_base() == base,
            forall|k: int| 0 <= k < it.spec_iter().spec_index() ==> #[trigger] level_index(base as int, k) < tree@.len(),
            out@ == present_values(tree@, base as int, 0, it.spec_iter().spec_index() as int),
        decreases (if level_index(base as int, it.spec_iter().spec_index() as int) < tree@.len() {
            tree@.len() - level_index(base as int, it.spec_iter().spec_index() as int)
        } else {
            0
        }),
    {
        let ghost i0 = it.spec_iter().spec_index() as int;
        proof {
            lemma_level_index_monotone(base as int, i0, i0 + 1);
        }
        match it.next() {
            Some(x) => {
                proof {
                    let i1 = it.spec_iter().spec_index() as int;
                    if i1 == i0 {
                        assert(present_values(tree@, base as int, i0, i1).len() == 0);
                    }
                    assert(i1 > i0);
                    lemma_level_index_monotone(base as int, i0, i1);
                    lemma_present_values_split(tree@, base as int, 0, i0, it.spec_iter().spec_index() as int);
                }
                out.push(*x);
            },
            None => {
                proof {
                    lemma_present_values_split(tree@, base as int, 0, i0, it.spec_iter().spec_index() as int);
                    assert(out@ =~= present_values(tree@, base as int, 0, it.spec_iter().spec_index() as int));
                    assert(is_span(base as int, tree@.len() as int, it.spec_iter().spec_index() as int));
                }
                return out;
            },
        }
    }
}

/// The values between `a` and `c` are those between `a` and `b` followed by those
/// between `b` and `c`.
pub proof fn lemma_present_values_split<T>(s: Seq<Option<T>>, base: int, a: int, b: int, c: int)
    requires
        a <= b <= c,
    ensures
        present_values(s, base, a, c) == present_values(s, base, a, b) + present_values(s, base, b, c),
    decreases c - b,
{
    if c > b {
        lemma_present_values_split(s, base, a, b, c - 1);
        assert(present_values(s, base, a, c) =~= present_values(s, base, a, b) + present_values(s, base, b, c));
    } else {
        assert(present_values(s, base, b, c) =~= Seq::<T>::empty());
        assert(present_values(s, base, a, c) =~= present_values(s, base, a, b) + present_values(s, base, b, c));
    }
}

/// A read-only cursor: a position in a vector tree.
pub struct Cursor<'a, T> {
    current: usize,
    tree: &'a VecBinaryTree<T>,
}

impl<'a, T> Cursor<'a, T> {
    /// The position the cursor is at.
    pub closed spec fn spec_current(&self) -> int {
        self.current as int
    }

    /// The tree the cursor walks.
    pub closed spec fn spec_tree(&self) -> &'a VecBinaryTree<T> {
        self.tree
    }

    /// The tree is well formed and the position small enough to step down from.
    pub open spec fn wf(&self) -> bool {
        &&& self.spec_tree().wf()
        &&& 0 <= self.spec_current() <= (usize::MAX as int - 2) / 2
    }

    /// The subtree at the cursor.
    pub open spec fn subtree(&self) -> Shape<T> {
        shape_at(self.spec_tree()@, self.spec_current())
    }

    /// A cursor at the root of `tree`.
    pub fn new(tree: &'a VecBinaryTree<T>) -> (c: Self)
        requires
            tree.wf(),
        ensures
            c.wf(),
            c.spec_current() == 0,
            c.spec_tree() == tree,
    {
        Cursor { current: 0, tree }
    }

    /// A read-only cursor at the position of a cursor that can change the tree.
    pub fn from_cursor_mut(cursor: &'a CursorMut<'a, T>) -> (c: Self)
        requires
            cursor.wf(),
        ensures
            c.wf(),
            c.spec_current() == cursor.spec_current(),
            *c.spec_tree() == cursor.spec_tree(),
    {
        Cursor { current: cursor.current, tree: &*cursor.tree }
    }

    /// A copy of the cursor.
    pub fn duplicate(&self) -> (c: Self)
        ensures
            c.spec_current() == self.spec_current(),
            c.spec_tree() == self.spec_tree(),
    {
        Cursor { current: self.current, tree: self.tree }
    }

    /// The value at the cursor, or `None` at an empty position.
    pub fn as_ref(&self) -> (r: Option<&T>)
        ensures
            deref_opt(r) == value_at(self.spec_tree()@, self.spec_current()),
    {
        self.tree.get(self.current)
    }

    /// Whether the subtree at the cursor is empty.
    pub fn is_empty_subtree(&self) -> (b: bool)
        ensures
            b <==> value_at(self.spec_tree()@, self.spec_current()) is None,
            b <==> self.subtree() is Empty,
    {
        self.tree.get(self.current).is_none()
    }

    /// The value of the left child, or `None` when there is none.
    pub fn left(&self) -> (r: Option<&T>)
        requires
            self.wf(),
        ensures
            deref_opt(r) == value_at(self.spec_tree()@, 2 * self.spec_current() + 1),
    {
        if self.current < self.tree.inner.len() {
            self.tree.get(left_index(self.current))
        } else {
            None
        }
    }

    /// The value of the right child, or `None` when there is none.
    pub fn right(&self) -> (r: Option<&T>)
        requires
            self.wf(),
        ensures
            deref_opt(r) == value_at(self.spec_tree()@, 2 * self.spec_current() + 2),
    {
        if self.current < self.tree.inner.len() {
            self.tree.get(right_index(self.current))
        } else {
            None
        }
    }

    /// Whether the cursor's position has no child.
    pub fn is_leaf(&self) -> (b: bool)
        requires
            self.wf(),
        ensures
            b <==> value_at(self.spec_tree()@, 2 * self.spec_current() + 1) is None && value_at(
                self.spec_tree()@,
                2 * self.spec_current() + 2,
            ) is None,
    {
        self.left().is_none() && self.right().is_none()
    }

    /// Whether `other` is at the parent position of this cursor.
    pub fn is_parent(&self, other: &Self) -> (b: bool)
        ensures
            b <==> (self.spec_current() > 0 && (self.spec_current() - 1) / 2 == other.spec_current()),
    {
        self.current > 0 && parent_index(self.current) == other.current
    }

    /// Moves to the left child; does nothing at an empty position.
    pub fn move_left(&mut self)
        requires
            old(self).wf(),
        ensures
            final(self).wf(),
            final(self).spec_tree() == old(self).spec_tree(),
            final(self).spec_current() == if value_at(old(self).spec_tree()@, old(self).spec_current()) is Some {
                2 * old(self).spec_current() + 1
            } else {
                old(self).spec_current()
            },
            final(self).subtree() == old(self).subtree().left() || old(self).subtree() is Empty,
    {
        if !self.is_empty_subtree() {
            let idx = left_index(self.current);
            self.current = idx;
        }
    }

    /// Moves to the right child; does nothing at an empty position.
    pub fn move_right(&mut self)
        requires
            old(self).wf(),
        ensures
            final(self).wf(),
            final(self).spec_tree() == old(self).spec_tree(),
            final(self).spec_current() == if value_at(old(self).spec_tree()@, old(self).spec_current()) is Some {
                2 * old(self).spec_current() + 2
            } else {
                old(self).spec_current()
            },
            final(self).subtree() == old(self).subtree().right() || old(self).subtree() is Empty,
    {
        if !self.is_empty_subtree() {
            let idx = right_index(self.current);
            self.current = idx;
        }
    }

    /// Moves to the in-order successor within the subtree: the leftmost node of the right
    /// subtree; does nothing when there is no right child.
    pub fn move_succ(&mut self)
        requires
            old(self).wf(),
        ensures
            final(self).wf(),
            final(self).spec_tree() == old(self).spec_tree(),
            value_at(old(self).spec_tree()@, 2 * old(self).spec_current() + 2) is None ==> final(self).spec_current()
                == old(self).spec_current(),
            value_at(old(self).spec_tree()@, old(self).spec_current()) is Some && value_at(
                old(self).spec_tree()@,
                2 * old(self).spec_current() + 2,
            ) is Some ==> value_at(final(self).spec_tree()@, final(self).spec_current()) is Some && value_at(
                final(self).spec_tree()@,
                2 * final(self).spec_current() + 1,
            ) is None,
    {
        if self.right().is_some() && !self.is_empty_subtree() {
            self.move_right();
            while self.left().is_some()
                invariant
                    self.wf(),
                    self.spec_tree() == old(self).spec_tree(),
                    value_at(self.spec_tree()@, self.spec_current()) is Some,
                decreases self.spec_tree()@.len() - self.spec_current(),
            {
                self.move_left();
            }
        }
    }

    /// The value at the cursor, for as long as the tree is borrowed.
    pub fn into_ref(self) -> (r: Option<&'a T>)
        ensures
            deref_opt(r) == value_at(self.spec_tree()@, self.spec_current()),
    {
        self.tree.get(self.current)
    }

    /// Cursors at the left and right children, each `None` when that child is absent;
    /// both `None` at an empty position.
    pub fn split(&self) -> (r: (Option<Self>, Option<Self>))
        requires
            self.wf(),
        ensures
            value_at(self.spec_tree()@, self.spec_current()) is None ==> r.0 is None && r.1 is None,
            value_at(self.spec_tree()@, self.spec_current()) is Some ==> (r.0 is Some <==> value_at(
                self.spec_tree()@,
                2 * self.spec_current() + 1,
            ) is Some) && (r.1 is Some <==> value_at(self.spec_tree()@, 2 * self.spec_current() + 2) is Some),
            r.0 matches Some(c) ==> c.wf() && c.spec_tree() == self.spec_tree() && c.spec_current() == 2
                * self.spec_current() + 1,
            r.1 matches Some(c) ==> c.wf() && c.spec_tree() == self.spec_tree() && c.spec_current() == 2
                * self.spec_current() + 2,
    {
        if self.is_empty_subtree() {
            (None, None)
        } else {
            let left = if self.left().is_some() {
                let mut child = self.duplicate();
                child.move_left();
                Some(child)
            } else {
                None
            };
            let right = if self.right().is_some() {
                let mut child = self.duplicate();
                child.move_right();
                Some(child)
            } else {
                None
            };
            (left, right)
        }
    }

    /// The values of the subtree in level order (depth by depth, left to right).
    pub fn in_order_iter(&self) -> (r: Vec<T>)
        where
            T: Copy,
        requires
            self.wf(),
        ensures
            exists|n: int|
                is_span(self.spec_current(), self.spec_tree()@.len() as int, n) && r@ == present_values(
                    self.spec_tree()@,
                    self.spec_current(),
                    0,
                    n,
                ),
            no_orphans(self.spec_tree()@) ==> r@ == self.subtree().level_order(),
    {
        let r = level_order_from(self.tree, self.current);
        proof {
            if no_orphans(self.spec_tree()@) {
                let n = choose|n: int|
                    is_span(self.spec_current(), self.spec_tree()@.len() as int, n) && r@ == present_values(
                        self.spec_tree()@,
                        self.spec_current(),
                        0,
                        n,
                    );
                lemma_level_order_walk(self.spec_tree()@, self.spec_current(), n);
            }
        }
        r
    }

    /// The values of the subtree in pre-order.
    pub fn pre_order_iter(&self) -> (r: Vec<T>)
        where
            T: Copy,
        requires
            self.wf(),
        ensures
            r@ == self.subtree().pre_order(),
    {
        let mut out = Vec::new();
        pre_order_from(self.tree, self.current, &mut out);
        assert(out@ =~= self.subtree().pre_order());
        out
    }

    /// The values of the subtree in symmetric (in-) order.
    pub fn mid_order_iter(&self) -> (r: Vec<T>)
        where
            T: Copy,
        requires
            self.wf(),
        ensures
            r@ == self.subtree().mid_order(),
    {
        let mut out = Vec::new();
        mid_order_from(self.tree, self.current, &mut out);
        assert(out@ =~= self.subtree().mid_order());
        out
    }

    /// The values of the subtree in post-order.
    pub fn post_order_iter(&self) -> (r: Vec<T>)
        where
            T: Copy,
        requires
            self.wf(),
        ensures
            r@ == self.subtree().post_order(),
    {
        let mut out = Vec::new();
        post_order_from(self.tree, self.current, &mut out);
        assert(out@ =~= self.subtree().post_order());
        out
    }
}

/// A cursor that can change the tree: a position in a mutably borrowed vector tree.
pub struct CursorMut<'a, T> {
    /// The position the cursor is at.
    pub current: usize,
    /// The borrowed tree.
    pub tree: &'a mut VecBinaryTree<T>,
}

impl<'a, T> CursorMut<'a, T> {
    /// The position the cursor is at.
    pub closed spec fn spec_current(&self) -> int {
        self.current as int
    }

    /// The tree as it is now.
    pub closed spec fn spec_tree(&self) -> VecBinaryTree<T> {
        *self.tree
    }

    /// The tree is well formed and the position small enough to step down from.
    pub open spec fn wf(&self) -> bool {
        &&& self.spec_tree().wf()
        &&& 0 <= self.spec_current() <= (usize::MAX as int - 2) / 2
    }

    /// The subtree at the cursor.
    pub open spec fn subtree(&self) -> Shape<T> {
        shape_at(self.spec_tree()@, self.spec_current())
    }

    /// A cursor at the root of `tree`.
    pub fn new(tree: &'a mut VecBinaryTree<T>) -> (c: Self)
        requires
            old(tree).wf(),
        ensures
            c.wf(),
            c.spec_current() == 0,
            c.spec_tree() == *old(tree),
            *final(c.tree) == *final(tree),
    {
        CursorMut { current: 0, tree }
    }

    /// A read-only cursor at the same position.
    pub fn cursor(&self) -> (c: Cursor<'_, T>)
        requires
            self.wf(),
        ensures
            c.wf(),
            c.spec_current() == self.spec_current(),
            *c.spec_tree() == self.spec_tree(),
    {
        Cursor::from_cursor_mut(self)
    }

    /// The value at the cursor, or `None` at an empty position.
    pub fn as_ref(&self) -> (r: Option<&T>)
        ensures
            deref_opt(r) == value_at(self.spec_tree()@, self.spec_current()),
    {
        self.tree.get(self.current)
    }

    /// Whether the subtree at the cursor is empty.
    pub fn is_empty_subtree(&self) -> (b: bool)
        ensures
            b <==> value_at(self.spec_tree()@, self.spec_current()) is None,
            b <==> self.subtree() is Empty,
    {
        self.tree.get(self.current).is_none()
    }

    /// The value of the left child, or `None` when there is none.
    pub fn left(&self) -> (r: Option<&T>)
        requires
            self.wf(),
        ensures
            deref_opt(r) == value_at(self.spec_tree()@, 2 * self.spec_current() + 1),
    {
        if self.current < self.tree.inner.len() {
            self.tree.get(left_index(self.current))
        } else {
            None
        }
    }

    /// The value of the right child, or `None` when there is none.
    pub fn right(&self) -> (r: Option<&T>)
        requires
            self.wf(),
        ensures
            deref_opt(r) == value_at(self.spec_tree()@, 2 * self.spec_current() + 2),
    {
        if self.current < self.tree.inner.len() {
            self.tree.get(right_index(self.current))
        } else {
            None
        }
    }

    /// Whether `other` is at the parent position of this cursor.
    pub fn is_parent(&self, other: &Self) -> (b: bool)
        ensures
            b <==> (self.spec_current() > 0 && (self.spec_current() - 1) / 2 == other.spec_current()),
    {
        self.current > 0 && parent_index(self.current) == other.current
    }

    /// Moves to the left child; does nothing at an empty position.
    pub fn move_left(&mut self)
        requires
            old(self).wf(),
        ensures
            final(self).wf(),
            final(self).spec_tree() == old(self).spec_tree(),
            *final(final(self).tree) == *final(old(self).tree),
            final(self).spec_current() == if value_at(old(self).spec_tree()@, old(self).spec_current()) is Some {
                2 * old(self).spec_current() + 1
            } else {
                old(self).spec_current()
            },
    {
        if !self.is_empty_subtree() {
            let idx = left_index(self.current);
            self.current = idx;
        }
    }

    /// Moves to the right child; does nothing at an empty position.
    pub fn move_right(&mut self)
        requires
            old(self).wf(),
        ensures
            final(self).wf(),
            final(self).spec_tree() == old(self).spec_tree(),
            *final(final(self).tree) == *final(old(self).tree),
            final(self).spec_current() == if value_at(old(self).spec_tree()@, old(self).spec_current()) is Some {
                2 * old(self).spec_current() + 2
            } else {
                old(self).spec_current()
            },
    {
        if !self.is_empty_subtree() {
            let idx = right_index(self.current);
            self.current = idx;
        }
    }

    /// The value at the cursor, for as long as the tree is borrowed.
    pub fn into_ref(self) -> (r: Option<&'a T>)
        ensures
            deref_opt(r) == value_at(self.spec_tree()@, self.spec_current()),
            *final(self.tree) == self.spec_tree(),
    {
        let CursorMut { current, tree } = self;
        let shared: &'a VecBinaryTree<T> = tree;
        shared.get(current)
    }

    /// A level-order walk of the positions of the subtree at the cursor.
    pub fn in_order_index_iter(&self) -> (it: InOrderIndexIter)
        requires
            self.wf(),
        ensures
            it.wf(),
            it.spec_index() == 0,
            it.spec_base() == self.spec_current(),
            it.spec_limit() == self.spec_tree()@.len(),
    {
        InOrderIndexIter::new(self.current, self.tree.inner.len())
    }

    /// A level-order walk of the values of the subtree at the cursor.
    pub fn in_order_iter(&self) -> (it: InOrderIter<'_, T>)
        requires
            self.wf(),
        ensures
            it.wf(),
            *it.spec_tree() == self.spec_tree(),
            it.spec_iter().spec_index() == 0,
            it.spec_iter().spec_base() == self.spec_current(),
    {
        InOrderIter::new(self.current, &*self.tree)
    }

    /// A mutable reference to the value at the cursor, or `None` at an empty position.
    pub fn as_mut(&mut self) -> (r: Option<&mut T>)
        ensures
            final(self).spec_current() == old(self).spec_current(),
            *final(final(self).tree) == *final(old(self).tree),
            deref_opt_mut(r) == value_at(old(self).spec_tree()@, old(self).spec_current()),
            r is Some ==> final(self).spec_tree()@ == old(self).spec_tree()@.update(
                old(self).spec_current(),
                Some(*final(r->0)),
            ),
            r is None ==> final(self).spec_tree()@ == old(self).spec_tree()@,
    {
        let c = self.current;
        self.tree.get_mut(c)
    }

    /// A mutable reference to the value of the left child, or `None` when there is none.
    pub fn left_mut(&mut self) -> (r: Option<&mut T>)
        requires
            old(self).wf(),
        ensures
            final(self).spec_current() == old(self).spec_current(),
            *final(final(self).tree) == *final(old(self).tree),
            deref_opt_mut(r) == value_at(old(self).spec_tree()@, 2 * old(self).spec_current() + 1),
            r is Some ==> final(self).spec_tree()@ == old(self).spec_tree()@.update(
                2 * old(self).spec_current() + 1,
                Some(*final(r->0)),
            ),
            r is None ==> final(self).spec_tree()@ == old(self).spec_tree()@,
    {
        if self.current < self.tree.inner.len() {
            let idx = left_index(self.current);
            self.tree.get_mut(idx)
        } else {
            None
        }
    }

    /// A mutable reference to the value of the right child, or `None` when there is none.
    pub fn right_mut(&mut self) -> (r: Option<&mut T>)
        requires
            old(self).wf(),
        ensures
            final(self).spec_current() == old(self).spec_current(),
            *final(final(self).tree) == *final(old(self).tree),
            deref_opt_mut(r) == value_at(old(self).spec_tree()@, 2 * old(self).spec_current() + 2),
            r is Some ==> final(self).spec_tree()@ == old(self).spec_tree()@.update(
                2 * old(self).spec_current() + 2,
                Some(*final(r->0)),
            ),
            r is None ==> final(self).spec_tree()@ == old(self).spec_tree()@,
    {
        if self.current < self.tree.inner.len() {
            let idx = right_index(self.current);
            self.tree.get_mut(idx)
        } else {
            None
        }
    }

    /// A mutable reference to the value at the cursor that outlives the cursor.
    pub fn into_mut(self) -> (r: Option<&'a mut T>)
        ensures
            deref_opt_mut(r) == value_at(self.spec_tree()@, self.spec_current()),
            r is Some ==> (*final(self.tree))@ == self.spec_tree()@.update(self.spec_current(), Some(*final(r->0))),
            r is None ==> (*final(self.tree))@ == self.spec_tree()@,
    {
        let CursorMut { current, tree } = self;
        tree.get_mut(current)
    }

    /// Position of the left child, after extending the tree with empty positions so that
    /// the position exists.
    fn get_left_index_and_resize(&mut self) -> (idx: usize)
        requires
            old(self).wf(),
            2 * old(self).spec_current() + 2 <= max_positions(),
        ensures
            final(self).wf(),
            idx == 2 * old(self).spec_current() + 1,
            final(self).spec_current() == old(self).spec_current(),
            *final(final(self).tree) == *final(old(self).tree),
            final(self).spec_tree()@ == resized(old(self).spec_tree()@, idx + 1),
    {
        let idx = left_index(self.current);
        self.tree.resize_to(idx + 1);
        idx
    }

    /// Position of the right child, after extending the tree with empty positions so that
    /// the position exists.
    fn get_right_index_and_resize(&mut self) -> (idx: usize)
        requires
            old(self).wf(),
            2 * old(self).spec_current() + 3 <= max_positions(),
        ensures
            final(self).wf(),
            idx == 2 * old(self).spec_current() + 2,
            final(self).spec_current() == old(self).spec_current(),
            *final(final(self).tree) == *final(old(self).tree),
            final(self).spec_tree()@ == resized(old(self).spec_tree()@, idx + 1),
    {
        let idx = right_index(self.current);
        self.tree.resize_to(idx + 1);
        idx
    }

    /// The slot at position `index`, after extending the tree with empty positions so
    /// that the position exists.
    pub fn get_node_and_resize(&mut self, index: usize) -> (r: &mut Option<T>)
        requires
            old(self).wf(),
            index < max_positions(),
        ensures
            final(self).spec_current() == old(self).spec_current(),
            *final(final(self).tree) == *final(old(self).tree),
            *r == resized(old(self).spec_tree()@, index + 1)[index as int],
            final(self).spec_tree()@ == resized(old(self).spec_tree()@, index + 1).update(index as int, *final(r)),
    {
        self.tree.resize_to(index + 1);
        &mut self.tree.inner[index]
    }

    /// Inserts `elem` at the cursor when its position is empty and returns `None`;
    /// otherwise changes nothing and gives `elem` back.
    pub fn insert_as_root(&mut self, elem: T) -> (r: Option<T>)
        requires
            old(self).wf(),
            old(self).spec_current() < max_positions(),
        ensures
            final(self).wf(),
            final(self).spec_current() == old(self).spec_current(),
            *final(final(self).tree) == *final(old(self).tree),
            value_at(old(self).spec_tree()@, old(self).spec_current()) is None ==> r is None && final(self).spec_tree()@
                == resized(old(self).spec_tree()@, old(self).spec_current() + 1).update(
                old(self).spec_current(),
                Some(elem),
            ),
            value_at(old(self).spec_tree()@, old(self).spec_current()) is Some ==> r == Some(elem)
                && final(self).spec_tree()@ == old(self).spec_tree()@,
    {
        if self.is_empty_subtree() {
            let c = self.current;
            self.tree.resize_to(c + 1);
            self.tree.inner.set(c, Some(elem));
            None
        } else {
            Some(elem)
        }
    }

    /// Inserts `elem` as the left child when the cursor's position holds a value and has
    /// no left child, and returns `None`; otherwise changes nothing and gives `elem` back.
    pub fn insert_as_left(&mut self, elem: T) -> (r: Option<T>)
        requires
            old(self).wf(),
            value_at(old(self).spec_tree()@, old(self).spec_current()) is Some ==> 2 * old(self).spec_current() + 2
                <= max_positions(),
        ensures
            final(self).wf(),
            final(self).spec_current() == old(self).spec_current(),
            *final(final(self).tree) == *final(old(self).tree),
            ({
                let s = old(self).spec_tree()@;
                let c = old(self).spec_current();
                if value_at(s, c) is Some && value_at(s, 2 * c + 1) is None {
                    r is None && final(self).spec_tree()@ == resized(s, 2 * c + 2).update(2 * c + 1, Some(elem))
                } else {
                    r == Some(elem) && final(self).spec_tree()@ == s
                }
            }),
    {
        if self.left().is_none() && !self.is_empty_subtree() {
            let idx = self.get_left_index_and_resize();
            self.tree.inner.set(idx, Some(elem));
            None
        } else {
            Some(elem)
        }
    }

    /// Inserts `elem` as the right child when the cursor's position holds a value and has
    /// no right child, and returns `None`; otherwise changes nothing and gives `elem` back.
    pub fn insert_as_right(&mut self, elem: T) -> (r: Option<T>)
        requires
            old(self).wf(),
            value_at(old(self).spec_tree()@, old(self).spec_current()) is Some ==> 2 * old(self).spec_current() + 3
                <= max_positions(),
        ensures
            final(self).wf(),
            final(self).spec_current() == old(self).spec_current(),
            *final(final(self).tree) == *final(old(self).tree),
            ({
                let s = old(self).spec_tree()@;
                let c = old(self).spec_current();
                if value_at(s, c) is Some && value_at(s, 2 * c + 2) is None {
                    r is None && final(self).spec_tree()@ == resized(s, 2 * c + 3).update(2 * c + 2, Some(elem))
                } else {
                    r == Some(elem) && final(self).spec_tree()@ == s
                }
            }),
    {
        if self.right().is_none() && !self.is_empty_subtree() {
            let idx = self.get_right_index_and_resize();
            self.tree.inner.set(idx, Some(elem));
            None
        } else {
            Some(elem)
        }
    }

    /// Moves the subtree rooted at position `base` out into a new tree, leaving its
    /// positions empty.
    fn take_subtree(&mut self, base: usize) -> (r: VecBinaryTree<T>)
        requires
            old(self).wf(),
            base <= usize::MAX / 2,
        ensures
            final(self).wf(),
            r.wf(),
            final(self).spec_current() == old(self).spec_current(),
            *final(final(self).tree) == *final(old(self).tree),
            taken_from(old(self).spec_tree()@, base as int, final(self).spec_tree()@, r@),
    {
        let mut out: VecBinaryTree<T> = VecBinaryTree::new();
        let mut iter = InOrderIndexIter::new(base, self.tree.inner.len());
        let ghost s = self.tree@;
        loop
            invariant
                self.wf(),
                self.spec_current() == old(self).spec_current(),
                *final(self.tree) == *final(old(self).tree),
                s == old(self).spec_tree()@,
                iter.wf(),
                iter.spec_base() == base,
                iter.spec_limit() == s.len(),
                out@.len() == iter.spec_index(),
                out@.len() <= s.len(),
                self.tree@.len() == s.len(),
                forall|k: int| 0 <= k < out@.len() ==> #[trigger] level_index(base as int, k) < s.len(),
                forall|k: int| 0 <= k < out@.len() ==> #[trigger] out@[k] == s[level_index(base as int, k)],
                forall|k: int| 0 <= k < out@.len() ==> #[trigger] self.tree@[level_index(base as int, k)] is None,
                forall|p: int|
                    0 <= p < s.len() && !in_span(base as int, out@.len() as int, p) ==> #[trigger] self.tree@[p] == s[p],
            decreases (if level_index(base as int, iter.spec_index() as int) < s.len() {
                s.len() - level_index(base as int, iter.spec_index() as int)
            } else {
                0
            }),
        {
            let ghost k0 = iter.spec_index() as int;
            proof {
                lemma_level_index_monotone(base as int, k0, k0 + 1);
            }
            match iter.next() {
                Some(src) => {
                    let ghost before = self.tree@;
                    let x = self.tree.inner[src].take();
                    out.inner.push(x);
                    proof {
                        assert forall|k: int| 0 <= k < k0 implies level_index(base as int, k) != src by {
                            lemma_level_index_monotone(base as int, k, k0);
                        }
                        assert forall|k: int| 0 <= k < out@.len() implies #[trigger] self.tree@[level_index(base as int, k)] is None by {
                            if k < k0 {
                                assert(level_index(base as int, k) != src);
                            }
                        }
                        assert forall|k: int| 0 <= k < out@.len() implies #[trigger] out@[k] == s[level_index(base as int, k)] by {
                            if k < k0 {
                                assert(level_index(base as int, k) != src);
                                assert(!in_span(base as int, k0, src as int));
                            }
                        }
                        assert forall|p: int|
                            0 <= p < s.len() && !in_span(base as int, out@.len() as int, p) implies #[trigger] self.tree@[p] == s[p] by {
                            assert(p != src) by {
                                if p == src {
                                    assert(level_index(base as int, k0) == p);
                                }
                            }
                            if in_span(base as int, k0, p) {
                                let k = choose|k: int| 0 <= k < k0 && level_index(base as int, k) == p;
                                assert(level_index(base as int, k) == p);
                            }
                        }
                    }
                },
                None => {
                    proof {
                        assert(level_index(base as int, out@.len() as int) >= s.len());
                    }
                    return out;
                },
            }
        }
    }

    /// Takes the whole subtree at the cursor out as a new tree (empty when the position is
    /// empty), leaving its positions empty.
    pub fn take(&mut self) -> (r: VecBinaryTree<T>)
        requires
            old(self).wf(),
        ensures
            final(self).wf(),
            r.wf(),
            final(self).spec_current() == old(self).spec_current(),
            *final(final(self).tree) == *final(old(self).tree),
            taken_from(old(self).spec_tree()@, old(self).spec_current(), final(self).spec_tree()@, r@),
            r.shape() == old(self).subtree(),
            final(self).subtree() == Shape::<T>::Empty,
    {
        let c = self.current;
        let r = self.take_subtree(c);
        proof {
            lemma_taken_shape(old(self).spec_tree()@, c as int, self.spec_tree()@, r@, 0);
            lemma_level_index_children(c as int, 0);
            if r@.len() > 0 {
                assert(self.spec_tree()@[level_index(c as int, 0)] is None);
            }
        }
        r
    }

    /// Takes the left subtree out as a new tree; `None` when the cursor's position is
    /// empty (the new tree is empty when the left subtree is).
    pub fn take_left(&mut self) -> (r: Option<VecBinaryTree<T>>)
        requires
            old(self).wf(),
        ensures
            final(self).wf(),
            final(self).spec_current() == old(self).spec_current(),
            *final(final(self).tree) == *final(old(self).tree),
            value_at(old(self).spec_tree()@, old(self).spec_current()) is None ==> r is None && final(self).spec_tree()@
                == old(self).spec_tree()@,
            value_at(old(self).spec_tree()@, old(self).spec_current()) is Some ==> (r matches Some(t) && t.wf()
                && taken_from(old(self).spec_tree()@, 2 * old(self).spec_current() + 1, final(self).spec_tree()@, t@)
                && t.shape() == shape_at(old(self).spec_tree()@, 2 * old(self).spec_current() + 1)),
    {
        if self.is_empty_subtree() {
            None
        } else {
            let base = left_index(self.current);
            let t = self.take_subtree(base);
            proof {
                lemma_taken_shape(old(self).spec_tree()@, base as int, self.spec_tree()@, t@, 0);
                lemma_level_index_children(base as int, 0);
            }
            Some(t)
        }
    }

    /// Takes the right subtree out as a new tree; `None` when the cursor's position is
    /// empty (the new tree is empty when the right subtree is).
    pub fn take_right(&mut self) -> (r: Option<VecBinaryTree<T>>)
        requires
            old(self).wf(),
        ensures
            final(self).wf(),
            final(self).spec_current() == old(self).spec_current(),
            *final(final(self).tree) == *final(old(self).tree),
            value_at(old(self).spec_tree()@, old(self).spec_current()) is None ==> r is None && final(self).spec_tree()@
                == old(self).spec_tree()@,
            value_at(old(self).spec_tree()@, old(self).spec_current()) is Some ==> (r matches Some(t) && t.wf()
                && taken_from(old(self).spec_tree()@, 2 * old(self).spec_current() + 2, final(self).spec_tree()@, t@)
                && t.shape() == shape_at(old(self).spec_tree()@, 2 * old(self).spec_current() + 2)),
    {
        if self.is_empty_subtree() {
            None
        } else {
            let base = right_index(self.current);
            let t = self.take_subtree(base);
            proof {
                lemma_taken_shape(old(self).spec_tree()@, base as int, self.spec_tree()@, t@, 0);
                lemma_level_index_children(base as int, 0);
            }
            Some(t)
        }
    }

    /// Writes the positions of `other` into the subtree rooted at position `base`, in level
    /// order, extending the tree with empty positions as needed.
    fn append_at(&mut self, base: usize, other: VecBinaryTree<T>)
        requires
            old(self).wf(),
            other.wf(),
            other@.len() > 0 ==> level_index(base as int, other@.len() - 1) < max_positions(),
        ensures
            final(self).wf(),
            final(self).spec_current() == old(self).spec_current(),
            *final(final(self).tree) == *final(old(self).tree),
            appended_to(old(self).spec_tree()@, base as int, other@, final(self).spec_tree()@),
    {
        let n = other.inner.len();
        let ghost o = other@;
        let ghost before = self.tree@;
        let mut other = other;
        if n > 0 {
            let last = in_order_index(base, n - 1);
            self.tree.resize_to(last + 1);
        }
        let ghost grown = self.tree@;
        assert(grown == resized(before, appended_len(before, base as int, o)));
        let mut k: usize = 0;
        while k < n
            invariant
                self.wf(),
                self.spec_current() == old(self).spec_current(),
                *final(self.tree) == *final(old(self).tree),
                before == old(self).spec_tree()@,
                grown == resized(before, appended_len(before, base as int, o)),
                n == o.len(),
                n > 0 ==> level_index(base as int, n - 1) < max_positions(),
                k <= n,
                other@.len() == n,
                forall|j: int| k <= j < n ==> #[trigger] other@[j] == o[j],
                self.tree@.len() == grown.len(),
                forall|j: int| 0 <= j < k ==> #[trigger] self.tree@[level_index(base as int, j)] == o[j],
                forall|p: int| 0 <= p < grown.len() && !in_span(base as int, k as int, p) ==> #[trigger] self.tree@[p] == grown[p],
                n > 0 ==> level_index(base as int, n - 1) < grown.len(),
            decreases n - k,
        {
            proof {
                if k < n - 1 {
                    lemma_level_index_monotone(base as int, k as int, n - 1);
                }
                lemma_level_index_monotone(base as int, k as int, k + 1);
            }
            let dst = in_order_index(base, k);
            let x = other.inner[k].take();
            let ghost prev = self.tree@;
            self.tree.inner.set(dst, x);
            proof {
                assert forall|j: int| 0 <= j < k implies level_index(base as int, j) != dst by {
                    lemma_level_index_monotone(base as int, j, k as int);
                }
                assert forall|j: int| 0 <= j < k + 1 implies #[trigger] self.tree@[level_index(base as int, j)] == o[j] by {
                    if j < k {
                        assert(level_index(base as int, j) != dst);
                        assert(prev[level_index(base as int, j)] == o[j]);
                        lemma_level_index_monotone(base as int, j, k as int);
                    }
                }
                assert forall|p: int| 0 <= p < grown.len() && !in_span(base as int, k + 1, p) implies #[trigger] self.tree@[p] == grown[p] by {
                    assert(p != dst) by {
                        if p == dst {
                            assert(level_index(base as int, k as int) == p);
                        }
                    }
                    if in_span(base as int, k as int, p) {
                        let j = choose|j: int| 0 <= j < k && level_index(base as int, j) == p;
                        assert(level_index(base as int, j) == p);
                    }
                }
            }
            k = k + 1;
        }
        proof {
            if n > 0 {
                assert forall|j: int| 0 <= j < n implies level_index(base as int, j) < max_positions() by {
                    if j < n - 1 {
                        lemma_level_index_monotone(base as int, j, n - 1);
                    }
                }
            }
        }
    }

    /// Attaches `other` as the subtree at the cursor, whose position must be empty.
    pub fn append(&mut self, other: VecBinaryTree<T>)
        requires
            old(self).wf(),
            other.wf(),
            value_at(old(self).spec_tree()@, old(self).spec_current()) is None,
            other@.len() > 0 ==> level_index(old(self).spec_current(), other@.len() - 1) < max_positions(),
        ensures
            final(self).wf(),
            final(self).spec_current() == old(self).spec_current(),
            *final(final(self).tree) == *final(old(self).tree),
            appended_to(old(self).spec_tree()@, old(self).spec_current(), other@, final(self).spec_tree()@),
            no_orphans(old(self).spec_tree()@) ==> shape_at(final(self).spec_tree()@, old(self).spec_current()) == other.shape(),
    {
        let b = self.current;
        let ghost before = self.spec_tree()@;
        let ghost o = other@;
        proof {
            if no_orphans(before) {
                assert forall|k: int| k >= 0 && #[trigger] level_index(b as int, k) < before.len() implies before[level_index(
                    b as int,
                    k,
                )] is None by {
                    lemma_empty_subtree(before, b as int, k);
                }
            }
        }
        self.append_at(b, other);
        proof {
            if no_orphans(before) {
                lemma_appended_shape(before, b as int, o, self.spec_tree()@, 0);
                lemma_level_index_children(b as int, 0);
            }
        }
    }

    /// Attaches `other` as the left subtree, which must be empty.
    pub fn append_left(&mut self, other: VecBinaryTree<T>)
        requires
            old(self).wf(),
            other.wf(),
            value_at(old(self).spec_tree()@, 2 * old(self).spec_current() + 1) is None,
            other@.len() > 0 ==> level_index(2 * old(self).spec_current() + 1, other@.len() - 1) < max_positions(),
        ensures
            final(self).wf(),
            final(self).spec_current() == old(self).spec_current(),
            *final(final(self).tree) == *final(old(self).tree),
            appended_to(old(self).spec_tree()@, 2 * old(self).spec_current() + 1, other@, final(self).spec_tree()@),
            no_orphans(old(self).spec_tree()@) ==> shape_at(final(self).spec_tree()@, 2 * old(self).spec_current() + 1) == other.shape(),
    {
        let b = left_index(self.current);
        let ghost before = self.spec_tree()@;
        let ghost o = other@;
        proof {
            if no_orphans(before) {
                assert forall|k: int| k >= 0 && #[trigger] level_index(b as int, k) < before.len() implies before[level_index(
                    b as int,
                    k,
                )] is None by {
                    lemma_empty_subtree(before, b as int, k);
                }
            }
        }
        self.append_at(b, other);
        proof {
            if no_orphans(before) {
                lemma_appended_shape(before, b as int, o, self.spec_tree()@, 0);
                lemma_level_index_children(b as int, 0);
            }
        }
    }

    /// Attaches `other` as the right subtree, which must be empty.
    pub fn append_right(&mut self, other: VecBinaryTree<T>)
        requires
            old(self).wf(),
            other.wf(),
            value_at(old(self).spec_tree()@, 2 * old(self).spec_current() + 2) is None,
            other@.len() > 0 ==> level_index(2 * old(self).spec_current() + 2, other@.len() - 1) < max_positions(),
        ensures
            final(self).wf(),
            final(self).spec_current() == old(self).spec_current(),
            *final(final(self).tree) == *final(old(self).tree),
            appended_to(old(self).spec_tree()@, 2 * old(self).spec_current() + 2, other@, final(self).spec_tree()@),
            no_orphans(old(self).spec_tree()@) ==> shape_at(final(self).spec_tree()@, 2 * old(self).spec_current() + 2) == other.shape(),
    {
        let b = right_index(self.current);
        let ghost before = self.spec_tree()@;
        let ghost o = other@;
        proof {
            if no_orphans(before) {
                assert forall|k: int| k >= 0 && #[trigger] level_index(b as int, k) < before.len() implies before[level_index(
                    b as int,
                    k,
                )] is None by {
                    lemma_empty_subtree(before, b as int, k);
                }
            }
        }
        self.append_at(b, other);
        proof {
            if no_orphans(before) {
                lemma_appended_shape(before, b as int, o, self.spec_tree()@, 0);
                lemma_level_index_children(b as int, 0);
            }
        }
    }

    /// Takes the value at the cursor out, leaving the position empty.
    pub fn into_inner(self) -> (r: Option<T>)
        requires
            self.wf(),
        ensures
            r == value_at(self.spec_tree()@, self.spec_current()),
            r is Some ==> (*final(self.tree))@ == self.spec_tree()@.update(self.spec_current(), None),
            r is None ==> (*final(self.tree))@ == self.spec_tree()@,
    {
        if self.is_empty_subtree() {
            None
        } else {
            let CursorMut { current, tree } = self;
            tree.inner[current].take()
        }
    }
}

/// Whether position `p` is one of the first `n` positions, in level order, of the subtree
/// rooted at `base`.
pub open spec fn in_span(base: int, n: int, p: int) -> bool {
    exists|k: int| 0 <= k < n && #[trigger] level_index(base, k) == p
}

/// Number of positions of the tree after writing `other` into the subtree at `base`.
pub open spec fn appended_len<T>(before: Seq<Option<T>>, base: int, other: Seq<Option<T>>) -> int {
    if other.len() == 0 {
        before.len() as int
    } else {
        resized(before, level_index(base, other.len() - 1) + 1).len() as int
    }
}

/// `after` is `before` with the positions of `other` written, in level order, into the
/// subtree rooted at `base`; positions beyond `before` that receive nothing are empty.
pub open spec fn appended_to<T>(before: Seq<Option<T>>, base: int, other: Seq<Option<T>>, after: Seq<Option<T>>) -> bool {
    &&& after.len() == appended_len(before, base, other)
    &&& forall|k: int| 0 <= k < other.len() ==> #[trigger] after[level_index(base, k)] == other[k]
    &&& forall|p: int|
        0 <= p < after.len() && !in_span(base, other.len() as int, p) ==> #[trigger] after[p] == resized(
            before,
            after.len() as int,
        )[p]
}

/// `taken` holds, in level order, the subtree of `before` rooted at `base`, and `after`
/// is `before` with those positions emptied.
pub open spec fn taken_from<T>(before: Seq<Option<T>>, base: int, after: Seq<Option<T>>, taken: Seq<Option<T>>) -> bool {
    &&& is_span(base, before.len() as int, taken.len() as int)
    &&& forall|k: int| 0 <= k < taken.len() ==> #[trigger] taken[k] == before[level_index(base, k)]
    &&& after.len() == before.len()
    &&& forall|k: int| 0 <= k < taken.len() ==> #[trigger] after[level_index(base, k)] is None
    &&& forall|p: int| 0 <= p < before.len() && !in_span(base, taken.len() as int, p) ==> #[trigger] after[p] == before[p]
}

} // verus!
