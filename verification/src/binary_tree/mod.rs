//! Binary trees: a mathematical model shared by every representation, and two
//! representations with cursors (one laid out in a vector, one linked by boxes).

pub mod vec_binary_tree;
pub mod linked_binary_tree;
pub mod doubly_linked_binary_tree;
pub mod coding_tree;
pub mod bit_stream;

use vstd::prelude::*;

verus! {

/// The mathematical model of a binary tree whose nodes hold values of type `T`.
pub enum Shape<T> {
    /// The empty tree.
    Empty,
    /// A node with a left subtree, a value and a right subtree.
    Node(Box<Shape<T>>, T, Box<Shape<T>>),
}

impl<T> Shape<T> {
    /// Values in pre-order: node, left subtree, right subtree.
    pub open spec fn pre_order(self) -> Seq<T>
        decreases self,
    {
        match self {
            Shape::Empty => Seq::empty(),
            Shape::Node(l, x, r) => seq![x] + l.pre_order() + r.pre_order(),
        }
    }

    /// Values in symmetric order: left subtree, node, right subtree.
    pub open spec fn mid_order(self) -> Seq<T>
        decreases self,
    {
        match self {
            Shape::Empty => Seq::empty(),
            Shape::Node(l, x, r) => l.mid_order() + seq![x] + r.mid_order(),
        }
    }

    /// Values in post-order: left subtree, right subtree, node.
    pub open spec fn post_order(self) -> Seq<T>
        decreases self,
    {
        match self {
            Shape::Empty => Seq::empty(),
            Shape::Node(l, x, r) => l.post_order() + r.post_order() + seq![x],
        }
    }

    /// Values of the nodes at depth `d`, from left to right.
    pub open spec fn level(self, d: nat) -> Seq<T>
        decreases self,
    {
        match self {
            Shape::Empty => Seq::empty(),
            Shape::Node(l, x, r) => if d == 0 {
                seq![x]
            } else {
                l.level((d - 1) as nat) + r.level((d - 1) as nat)
            },
        }
    }

    /// Values of the nodes at depths below `n`, level by level.
    pub open spec fn levels_upto(self, n: nat) -> Seq<T>
        decreases n,
    {
        if n == 0 {
            Seq::empty()
        } else {
            self.levels_upto((n - 1) as nat) + self.level((n - 1) as nat)
        }
    }

    /// Number of levels of the tree.
    pub open spec fn height(self) -> nat
        decreases self,
    {
        match self {
            Shape::Empty => 0,
            Shape::Node(l, _, r) => {
                let hl = l.height();
                let hr = r.height();
                1 + if hl >= hr {
                    hl
                } else {
                    hr
                }
            },
        }
    }

    /// Values in level order: depth by depth, left to right.
    pub open spec fn level_order(self) -> Seq<T> {
        self.levels_upto(self.height())
    }

    /// Number of nodes.
    pub open spec fn size(self) -> nat
        decreases self,
    {
        match self {
            Shape::Empty => 0,
            Shape::Node(l, _, r) => l.size() + 1 + r.size(),
        }
    }

    /// Whether the tree has no node.
    pub open spec fn is_empty(self) -> bool {
        self is Empty
    }

    /// The value at the root, if any.
    pub open spec fn root(self) -> Option<T> {
        match self {
            Shape::Empty => None,
            Shape::Node(_, x, _) => Some(x),
        }
    }

    /// The left subtree (empty for the empty tree).
    pub open spec fn left(self) -> Shape<T> {
        match self {
            Shape::Empty => Shape::Empty,
            Shape::Node(l, _, _) => *l,
        }
    }

    /// The right subtree (empty for the empty tree).
    pub open spec fn right(self) -> Shape<T> {
        match self {
            Shape::Empty => Shape::Empty,
            Shape::Node(_, _, r) => *r,
        }
    }
}

/// The subtree of `t` reached by following the directions `p[i..]` (`true` for left).
pub open spec fn subtree_at<T>(t: Shape<T>, p: Seq<bool>, i: int) -> Shape<T>
    decreases p.len() - i,
{
    if i >= p.len() || i < 0 {
        t
    } else {
        match t {
            Shape::Empty => Shape::Empty,
            Shape::Node(l, _, r) => if p[i] {
                subtree_at(*l, p, i + 1)
            } else {
                subtree_at(*r, p, i + 1)
            },
        }
    }
}

/// `t` with the subtree reached by the directions `p[i..]` replaced by `s`.
pub open spec fn replace_at<T>(t: Shape<T>, p: Seq<bool>, i: int, s: Shape<T>) -> Shape<T>
    decreases p.len() - i,
{
    if i >= p.len() || i < 0 {
        s
    } else {
        match t {
            Shape::Empty => Shape::Empty,
            Shape::Node(l, x, r) => if p[i] {
                Shape::Node(Box::new(replace_at(*l, p, i + 1, s)), x, r)
            } else {
                Shape::Node(l, x, Box::new(replace_at(*r, p, i + 1, s)))
            },
        }
    }
}

/// Every node strictly above the end of the directions `p[i..]` exists.
pub open spec fn valid_path<T>(t: Shape<T>, p: Seq<bool>, i: int) -> bool
    decreases p.len() - i,
{
    if i >= p.len() || i < 0 {
        true
    } else {
        match t {
            Shape::Empty => false,
            Shape::Node(l, _, r) => if p[i] {
                valid_path(*l, p, i + 1)
            } else {
                valid_path(*r, p, i + 1)
            },
        }
    }
}

/// Putting back the subtree found at a path leaves the tree unchanged.
pub proof fn lemma_replace_same<T>(t: Shape<T>, p: Seq<bool>, i: int)
    requires
        0 <= i <= p.len(),
    ensures
        replace_at(t, p, i, subtree_at(t, p, i)) == t,
    decreases p.len() - i,
{
    if i < p.len() {
        match t {
            Shape::Node(l, _, r) => {
                if p[i] {
                    lemma_replace_same(*l, p, i + 1);
                } else {
                    lemma_replace_same(*r, p, i + 1);
                }
            },
            Shape::Empty => {},
        }
    }
}

/// Stepping down from a node at the end of a valid path gives a valid path to the child.
pub proof fn lemma_path_push<T>(t: Shape<T>, p: Seq<bool>, i: int, b: bool)
    requires
        0 <= i <= p.len(),
        valid_path(t, p, i),
        subtree_at(t, p, i) is Node,
    ensures
        valid_path(t, p.push(b), i),
        subtree_at(t, p.push(b), i) == if b {
            subtree_at(t, p, i).left()
        } else {
            subtree_at(t, p, i).right()
        },
    decreases p.len() - i,
{
    if i < p.len() {
        assert(p.push(b)[i] == p[i]);
        match t {
            Shape::Node(l, _, r) => {
                if p[i] {
                    lemma_path_push(*l, p, i + 1, b);
                } else {
                    lemma_path_push(*r, p, i + 1, b);
                }
            },
            Shape::Empty => {},
        }
    } else {
        assert(p.push(b)[i] == b);
        match t {
            Shape::Node(l, _, r) => {
                assert(subtree_at(*l, p.push(b), i + 1) == *l);
                assert(subtree_at(*r, p.push(b), i + 1) == *r);
                assert(valid_path(*l, p.push(b), i + 1));
                assert(valid_path(*r, p.push(b), i + 1));
            },
            Shape::Empty => {},
        }
    }
}

/// Dropping the last direction of a valid non-empty path gives a valid path to a node.
pub proof fn lemma_path_pop<T>(t: Shape<T>, p: Seq<bool>, i: int)
    requires
        0 <= i < p.len(),
        valid_path(t, p, i),
    ensures
        valid_path(t, p.drop_last(), i),
        subtree_at(t, p.drop_last(), i) is Node,
    decreases p.len() - i,
{
    let q = p.drop_last();
    match t {
        Shape::Node(l, _, r) => {
            if i < p.len() - 1 {
                assert(q[i] == p[i]);
                if p[i] {
                    lemma_path_pop(*l, p, i + 1);
                } else {
                    lemma_path_pop(*r, p, i + 1);
                }
            }
        },
        Shape::Empty => {},
    }
}

/// The tree with its root value replaced (unchanged when empty).
pub open spec fn set_root<T>(t: Shape<T>, v: T) -> Shape<T> {
    match t {
        Shape::Node(l, _, r) => Shape::Node(l, v, r),
        Shape::Empty => t,
    }
}

/// The tree with its left subtree replaced (unchanged when empty).
pub open spec fn set_left<T>(t: Shape<T>, s: Shape<T>) -> Shape<T> {
    match t {
        Shape::Node(_, x, r) => Shape::Node(Box::new(s), x, r),
        Shape::Empty => t,
    }
}

/// The tree with its right subtree replaced (unchanged when empty).
pub open spec fn set_right<T>(t: Shape<T>, s: Shape<T>) -> Shape<T> {
    match t {
        Shape::Node(l, x, _) => Shape::Node(l, x, Box::new(s)),
        Shape::Empty => t,
    }
}

/// A tree of a single node.
pub open spec fn leaf<T>(x: T) -> Shape<T> {
    Shape::Node(Box::new(Shape::Empty), x, Box::new(Shape::Empty))
}

/// The tree rotated clockwise at its root: the left child rises. Unchanged when the root
/// or its left child is missing.
pub open spec fn rotate_right<T>(t: Shape<T>) -> Shape<T> {
    match t {
        Shape::Node(l, y, c) => match *l {
            Shape::Node(a, x, b) => Shape::Node(a, x, Box::new(Shape::Node(b, y, c))),
            Shape::Empty => t,
        },
        Shape::Empty => t,
    }
}

/// The tree rotated counter-clockwise at its root: the right child rises. Unchanged when
/// the root or its right child is missing.
pub open spec fn rotate_left<T>(t: Shape<T>) -> Shape<T> {
    match t {
        Shape::Node(a, x, r) => match *r {
            Shape::Node(b, y, c) => Shape::Node(Box::new(Shape::Node(a, x, b)), y, c),
            Shape::Empty => t,
        },
        Shape::Empty => t,
    }
}

/// Rotations keep the symmetric order of the values.
pub proof fn lemma_rotation_keeps_mid_order<T>(t: Shape<T>)
    ensures
        rotate_right(t).mid_order() == t.mid_order(),
        rotate_left(t).mid_order() == t.mid_order(),
{
    match t {
        Shape::Node(l, y, c) => {
            match *l {
                Shape::Node(a, x, b) => {
                    let inner = Shape::Node(b, y, c);
                    assert(inner.mid_order() == b.mid_order() + seq![y] + c.mid_order());
                    assert((*l).mid_order() == a.mid_order() + seq![x] + b.mid_order());
                    assert(rotate_right(t).mid_order() =~= t.mid_order());
                },
                Shape::Empty => {},
            }
            match *c {
                Shape::Node(b, z, d) => {
                    let inner = Shape::Node(l, y, b);
                    assert(inner.mid_order() == (*l).mid_order() + seq![y] + b.mid_order());
                    assert((*c).mid_order() == b.mid_order() + seq![z] + d.mid_order());
                    assert(rotate_left(t).mid_order() =~= t.mid_order());
                },
                Shape::Empty => {},
            }
        },
        Shape::Empty => {},
    }
}

/// The value behind an optional reference.
pub open spec fn deref_opt<T>(o: Option<&T>) -> Option<T> {
    match o {
        Some(x) => Some(*x),
        None => None,
    }
}

/// The value behind an optional mutable reference, as it is now.
pub open spec fn deref_opt_mut<T>(o: Option<&mut T>) -> Option<T> {
    match o {
        Some(x) => Some(*x),
        None => None,
    }
}

/// Every traversal order visits each node once: all of them have the tree's size as length.
pub proof fn lemma_traversal_lengths<T>(t: Shape<T>)
    ensures
        t.pre_order().len() == t.size(),
        t.mid_order().len() == t.size(),
        t.post_order().len() == t.size(),
    decreases t,
{
    match t {
        Shape::Empty => {},
        Shape::Node(l, _, r) => {
            lemma_traversal_lengths(*l);
            lemma_traversal_lengths(*r);
        },
    }
}

/// Levels at or beyond the height are empty.
pub proof fn lemma_level_beyond_height<T>(t: Shape<T>, d: nat)
    requires
        d >= t.height(),
    ensures
        t.level(d) == Seq::<T>::empty(),
    decreases t,
{
    match t {
        Shape::Empty => {},
        Shape::Node(l, _, r) => {
            lemma_level_beyond_height(*l, (d - 1) as nat);
            lemma_level_beyond_height(*r, (d - 1) as nat);
        },
    }
}

} // verus!
