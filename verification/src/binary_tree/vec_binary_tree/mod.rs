//! A binary tree stored level by level in a vector: the children of position `i` are at
//! `2 * i + 1` and `2 * i + 2`.

pub mod cursor;
pub mod iter;
pub mod level;

use vstd::prelude::*;
use super::Shape;
use cursor::{Cursor, CursorMut};

verus! {

/// The largest number of positions a vector tree may use.
pub open spec fn max_positions() -> int {
    usize::MAX as int / 4
}

/// The tree rooted at position `i` of a level-by-level layout.
pub open spec fn shape_at<T>(s: Seq<Option<T>>, i: int) -> Shape<T>
    decreases (if 0 <= i < s.len() {
        s.len() - i
    } else {
        0
    }),
{
    if 0 <= i < s.len() && s[i] is Some {
        Shape::Node(Box::new(shape_at(s, 2 * i + 1)), s[i]->0, Box::new(shape_at(s, 2 * i + 2)))
    } else {
        Shape::Empty
    }
}

/// `s` extended with empty positions up to length `n` (unchanged when already longer).
pub open spec fn resized<T>(s: Seq<Option<T>>, n: int) -> Seq<Option<T>> {
    if n <= s.len() {
        s
    } else {
        s + Seq::new((n - s.len()) as nat, |i: int| None::<T>)
    }
}

/// A binary tree laid out level by level in a vector of optional values.
pub struct VecBinaryTree<T> {
    pub(crate) inner: Vec<Option<T>>,
}

impl<T> View for VecBinaryTree<T> {
    type V = Seq<Option<T>>;

    open spec fn view(&self) -> Seq<Option<T>> {
        self.spec_inner()
    }
}

impl<T> VecBinaryTree<T> {
    /// The positions of the tree.
    pub closed spec fn spec_inner(&self) -> Seq<Option<T>> {
        self.inner@
    }

    /// The tree as a mathematical binary tree.
    pub open spec fn shape(&self) -> Shape<T> {
        shape_at(self@, 0)
    }

    /// The tree uses few enough positions that child positions cannot overflow.
    pub open spec fn wf(&self) -> bool {
        self@.len() <= max_positions()
    }

    /// The value at position `index`, if there is one.
    pub fn get(&self, index: usize) -> (r: Option<&T>)
        ensures
            r == (if index < self@.len() && self@[index as int] is Some {
                Some(&self@[index as int]->0)
            } else {
                None
            }),
    {
        if index < self.inner.len() {
            match &self.inner[index] {
                Some(x) => Some(x),
                None => None,
            }
        } else {
            None
        }
    }

    /// A mutable reference to the value at position `index`, if there is one.
    pub fn get_mut(&mut self, index: usize) -> (r: Option<&mut T>)
        ensures
            index < old(self)@.len() && old(self)@[index as int] is Some ==> r is Some && *r->0
                == old(self)@[index as int]->0 && final(self)@ == old(self)@.update(
                index as int,
                Some(*final(r->0)),
            ),
            !(index < old(self)@.len() && old(self)@[index as int] is Some) ==> r is None && final(self)@
                == old(self)@,
    {
        if index < self.inner.len() {
            match &mut self.inner[index] {
                Some(x) => Some(x),
                None => None,
            }
        } else {
            None
        }
    }

    /// Extends the tree with empty positions until it has at least `n` of them.
    pub(crate) fn resize_to(&mut self, n: usize)
        ensures
            final(self)@ == resized(old(self)@, n as int),
    {
        while self.inner.len() < n
            invariant
                self.inner@ == resized(old(self)@, self.inner@.len() as int),
                self.inner@.len() >= old(self)@.len(),
                self.inner@.len() > old(self)@.len() ==> self.inner@.len() <= n,
            decreases n - self.inner@.len(),
        {
            self.inner.push(None);
            proof {
                assert(self.inner@ =~= resized(old(self)@, self.inner@.len() as int));
            }
        }
        proof {
            assert(self.inner@ =~= resized(old(self)@, n as int));
        }
    }

    /// Creates an empty tree.
    pub fn new() -> (t: Self)
        ensures
            t@ == Seq::<Option<T>>::empty(),
            t.wf(),
            t.shape() == Shape::<T>::Empty,
    {
        VecBinaryTree { inner: Vec::new() }
    }

    /// Whether the tree has no root.
    pub fn is_empty(&self) -> (b: bool)
        ensures
            b <==> self.shape() is Empty,
    {
        self.get(0).is_none()
    }

    /// A read-only cursor at the root.
    pub fn cursor(&self) -> (c: Cursor<'_, T>)
        requires
            self.wf(),
        ensures
            c.wf(),
            c.spec_current() == 0,
            *c.spec_tree() == *self,
    {
        Cursor::new(self)
    }

    /// A cursor at the root that can change the tree.
    pub fn cursor_mut(&mut self) -> (c: CursorMut<'_, T>)
        requires
            old(self).wf(),
        ensures
            c.wf(),
            c.spec_current() == 0,
            c.spec_tree() == *old(self),
            *final(c.tree) == *final(self),
    {
        CursorMut::new(self)
    }
}

impl<T> Default for VecBinaryTree<T> {
    fn default() -> (t: Self)
        ensures
            t@ == Seq::<Option<T>>::empty(),
    {
        VecBinaryTree::new()
    }
}

} // verus!
