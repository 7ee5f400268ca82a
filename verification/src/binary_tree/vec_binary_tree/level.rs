//! The level-order numbering of a subtree in the vector layout walks the subtree's shape
//! depth by depth, from left to right.

use vstd::prelude::*;
use super::shape_at;
use super::iter::{level_index, pow2_floor, present_values, lemma_level_index_monotone, lemma_level_index_children};
use super::cursor::{lemma_present_values_split, taken_from, appended_to, in_span};
use super::resized;
use super::super::{Shape, lemma_level_beyond_height};

verus! {

/// `2` to the power `d`: the number of positions at depth `d` below a position.
pub open spec fn width(d: nat) -> nat
    decreases d,
{
    if d == 0 {
        1
    } else {
        2 * width((d - 1) as nat)
    }
}

/// The first position at depth `d` below position `b`.
pub open spec fn first_at(b: int, d: nat) -> int {
    (b + 1) * width(d) - 1
}

/// Whether every value of the layout other than the root's has a value at its parent.
pub open spec fn no_orphans<T>(s: Seq<Option<T>>) -> bool {
    forall|i: int| 0 < i < s.len() && #[trigger] s[i] is Some ==> s[(i - 1) / 2] is Some
}

/// The values held at the positions `lo` up to (not including) `hi`, in order.
pub open spec fn present_at<T>(s: Seq<Option<T>>, lo: int, hi: int) -> Seq<T>
    decreases hi - lo,
{
    if hi <= lo {
        Seq::empty()
    } else {
        present_at(s, lo, hi - 1) + if 0 <= hi - 1 < s.len() && s[hi - 1] is Some {
            seq![s[hi - 1]->0]
        } else {
            Seq::<T>::empty()
        }
    }
}

/// The values of a range of positions are those of its two parts.
proof fn lemma_present_at_split<T>(s: Seq<Option<T>>, a: int, b: int, c: int)
    requires
        a <= b <= c,
    ensures
        present_at(s, a, c) == present_at(s, a, b) + present_at(s, b, c),
    decreases c - b,
{
    if c > b {
        lemma_present_at_split(s, a, b, c - 1);
        assert(present_at(s, a, c) =~= present_at(s, a, b) + present_at(s, b, c));
    } else {
        assert(present_at(s, a, c) =~= present_at(s, a, b) + present_at(s, b, c));
    }
}

/// The positions at depth `d` below `b` are those at depth `d - 1` below its left child
/// followed by those below its right child.
proof fn lemma_first_at_children(b: int, d: nat)
    requires
        d > 0,
        b >= 0,
    ensures
        first_at(2 * b + 1, (d - 1) as nat) == first_at(b, d),
        first_at(2 * b + 2, (d - 1) as nat) == first_at(b, d) + width((d - 1) as nat),
        width(d) == 2 * width((d - 1) as nat),
{
    let w = width((d - 1) as nat);
    assert((2 * b + 2) * w == (b + 1) * (2 * w)) by (nonlinear_arith);
    assert((2 * b + 3) * w == (b + 1) * (2 * w) + w) by (nonlinear_arith);
}

/// Widths are positive.
proof fn lemma_width_pos(d: nat)
    ensures
        width(d) >= 1,
        width(d) >= d + 1,
    decreases d,
{
    if d > 0 {
        lemma_width_pos((d - 1) as nat);
    }
}

/// Below a position without a value, a layout without orphans holds no value.
proof fn lemma_empty_below<T>(s: Seq<Option<T>>, b: int, d: nat)
    requires
        no_orphans(s),
        b >= 0,
        !(b < s.len() && s[b] is Some),
    ensures
        present_at(s, first_at(b, d), first_at(b, d) + width(d)) == Seq::<T>::empty(),
    decreases d,
{
    if d == 0 {
        assert(width(0) == 1);
        assert((b + 1) * width(0) == b + 1) by (nonlinear_arith)
            requires
                width(0) == 1,
        ;
        assert(first_at(b, 0) == b);
        assert(present_at(s, b, b) == Seq::<T>::empty());
    } else {
        lemma_first_at_children(b, d);
        let dd = (d - 1) as nat;
        assert(!(2 * b + 1 < s.len() && s[2 * b + 1] is Some)) by {
            if 2 * b + 1 < s.len() && s[2 * b + 1] is Some {
                assert((2 * b + 1 - 1) / 2 == b);
            }
        }
        assert(!(2 * b + 2 < s.len() && s[2 * b + 2] is Some)) by {
            if 2 * b + 2 < s.len() && s[2 * b + 2] is Some {
                assert((2 * b + 2 - 1) / 2 == b);
            }
        }
        lemma_empty_below(s, 2 * b + 1, dd);
        lemma_empty_below(s, 2 * b + 2, dd);
        lemma_width_pos(dd);
        lemma_present_at_split(s, first_at(b, d), first_at(b, d) + width(dd), first_at(b, d) + width(d));
    }
}

/// In a layout without orphans, the values at depth `d` of the subtree at `b` are those
/// held at the positions at depth `d` below `b`, from left to right.
pub proof fn lemma_level_positions<T>(s: Seq<Option<T>>, b: int, d: nat)
    requires
        no_orphans(s),
        b >= 0,
    ensures
        shape_at(s, b).level(d) == present_at(s, first_at(b, d), first_at(b, d) + width(d)),
    decreases d,
{
    if !(b < s.len() && s[b] is Some) {
        lemma_empty_below(s, b, d);
    } else if d == 0 {
        assert(width(0) == 1);
        assert((b + 1) * width(0) == b + 1) by (nonlinear_arith)
            requires
                width(0) == 1,
        ;
        assert(first_at(b, 0) == b);
        assert(present_at(s, b, b) == Seq::<T>::empty());
        assert(present_at(s, b, b + 1) =~= seq![s[b]->0]);
    } else {
        let dd = (d - 1) as nat;
        lemma_first_at_children(b, d);
        lemma_level_positions(s, 2 * b + 1, dd);
        lemma_level_positions(s, 2 * b + 2, dd);
        lemma_width_pos(dd);
        lemma_present_at_split(s, first_at(b, d), first_at(b, d) + width(dd), first_at(b, d) + width(d));
    }
}

/// Numbers from `width(d)` up to twice that have `width(d)` as greatest power of two below.
proof fn lemma_pow2_floor_width(d: nat, m: nat)
    requires
        width(d) <= m < 2 * width(d),
    ensures
        pow2_floor(m) == width(d),
    decreases d,
{
    if d > 0 {
        lemma_width_pos((d - 1) as nat);
        lemma_pow2_floor_width((d - 1) as nat, m / 2);
    }
}

/// The numbers at depth `d` in level order within the subtree at `b` name the positions at
/// depth `d` below `b`, in order.
proof fn lemma_level_index_depth(b: int, d: nat, j: int)
    requires
        b >= 0,
        0 <= j < width(d),
    ensures
        level_index(b, width(d) - 1 + j) == first_at(b, d) + j,
{
    lemma_width_pos(d);
    lemma_pow2_floor_width(d, (width(d) + j) as nat);
    assert((b + 1) * width(d) == b * width(d) + width(d)) by (nonlinear_arith);
}

/// Walking the numbers at depth `d` gives the values at the positions at depth `d`.
proof fn lemma_depth_values<T>(s: Seq<Option<T>>, b: int, d: nat, j: int)
    requires
        b >= 0,
        0 <= j <= width(d),
    ensures
        present_values(s, b, width(d) - 1, width(d) - 1 + j) == present_at(s, first_at(b, d), first_at(b, d) + j),
    decreases j,
{
    lemma_width_pos(d);
    if j > 0 {
        lemma_depth_values(s, b, d, j - 1);
        lemma_level_index_depth(b, d, j - 1);
    } else {
        assert(present_values(s, b, width(d) - 1, width(d) - 1) == Seq::<T>::empty());
        assert(present_at(s, first_at(b, d), first_at(b, d)) == Seq::<T>::empty());
    }
}

/// In a layout without orphans, the values at the first `width(n) - 1` level-order
/// numbers within the subtree at `b` are the subtree's first `n` levels.
proof fn lemma_levels_upto<T>(s: Seq<Option<T>>, b: int, n: nat)
    requires
        no_orphans(s),
        b >= 0,
    ensures
        present_values(s, b, 0, width(n) - 1) == shape_at(s, b).levels_upto(n),
    decreases n,
{
    if n == 0 {
        assert(present_values(s, b, 0, 0) == Seq::<T>::empty());
    } else {
        let d = (n - 1) as nat;
        lemma_levels_upto(s, b, d);
        lemma_width_pos(d);
        lemma_present_values_split(s, b, 0, width(d) - 1, width(n) - 1);
        lemma_depth_values(s, b, d, width(d) as int);
        lemma_level_positions(s, b, d);
    }
}

/// Levels past the height add nothing.
proof fn lemma_levels_past_height<T>(t: Shape<T>, n: nat)
    requires
        n >= t.height(),
    ensures
        t.levels_upto(n) == t.level_order(),
    decreases n,
{
    if n > t.height() {
        lemma_levels_past_height(t, (n - 1) as nat);
        lemma_level_beyond_height(t, (n - 1) as nat);
        assert(t.levels_upto(n) =~= t.levels_upto((n - 1) as nat));
    }
}

/// Numbers whose positions lie past the layout give no values.
proof fn lemma_values_past_end<T>(s: Seq<Option<T>>, b: int, lo: int, hi: int)
    requires
        b >= 0,
        0 <= lo,
        level_index(b, lo) >= s.len(),
    ensures
        present_values(s, b, lo, hi) == Seq::<T>::empty(),
    decreases hi - lo,
{
    if hi > lo {
        lemma_values_past_end(s, b, lo, hi - 1);
        if hi - 1 > lo {
            lemma_level_index_monotone(b, lo, hi - 1);
        }
    }
}

/// In a layout without orphans, walking the level-order numbers within the subtree at `b`
/// up to the first one whose position lies past the layout gives the subtree's values in
/// level order: depth by depth, from left to right.
pub proof fn lemma_level_order_walk<T>(s: Seq<Option<T>>, b: int, n: int)
    requires
        no_orphans(s),
        b >= 0,
        n >= 0,
        level_index(b, n) >= s.len(),
    ensures
        present_values(s, b, 0, n) == shape_at(s, b).level_order(),
{
    let t = shape_at(s, b);
    let big = (t.height() + n) as nat;
    lemma_width_pos(big);
    lemma_levels_upto(s, b, big);
    lemma_levels_past_height(t, big);
    lemma_present_values_split(s, b, 0, n, width(big) - 1);
    lemma_values_past_end(s, b, n, width(big) - 1);
    assert(present_values(s, b, 0, n) + Seq::<T>::empty() =~= present_values(s, b, 0, n));
}

/// A subtree taken out in level order keeps its shape: the tree at number `j` of what was
/// taken is the tree that stood at the position numbered `j` within the subtree.
pub proof fn lemma_taken_shape<T>(before: Seq<Option<T>>, base: int, after: Seq<Option<T>>, taken: Seq<Option<T>>, j: int)
    requires
        taken_from(before, base, after, taken),
        base >= 0,
        j >= 0,
    ensures
        shape_at(taken, j) == shape_at(before, level_index(base, j)),
    decreases (if j < taken.len() {
        taken.len() - j
    } else {
        0
    }),
{
    let n = taken.len() as int;
    let p = level_index(base, j);
    if j < n {
        assert(taken[j] == before[p]);
        lemma_level_index_children(base, j);
        lemma_level_index_monotone(base, j, n);
        if taken[j] is Some {
            lemma_taken_shape(before, base, after, taken, 2 * j + 1);
            lemma_taken_shape(before, base, after, taken, 2 * j + 2);
        }
    } else {
        if j > n {
            lemma_level_index_monotone(base, n, j);
        }
        assert(p >= before.len());
    }
}

/// In a layout without orphans, below an empty position every position is empty.
pub proof fn lemma_empty_subtree<T>(s: Seq<Option<T>>, b: int, k: int)
    requires
        no_orphans(s),
        b >= 0,
        k >= 0,
        !(b < s.len() && s[b] is Some),
    ensures
        !(level_index(b, k) < s.len() && s[level_index(b, k)] is Some),
    decreases k,
{
    if k > 0 {
        let j = (k - 1) / 2;
        lemma_empty_subtree(s, b, j);
        lemma_level_index_children(b, j);
        let p = level_index(b, k);
        let q = level_index(b, j);
        assert(p == 2 * q + 1 || p == 2 * q + 2);
        assert((p - 1) / 2 == q);
    } else {
        lemma_level_index_children(b, 0);
    }
}

/// Writing a tree in level order into an empty subtree gives that subtree the tree's shape:
/// the tree at position numbered `j` is the tree at number `j` of what was written.
pub proof fn lemma_appended_shape<T>(before: Seq<Option<T>>, base: int, other: Seq<Option<T>>, after: Seq<Option<T>>, j: int)
    requires
        appended_to(before, base, other, after),
        base >= 0,
        j >= 0,
        forall|k: int| k >= 0 && #[trigger] level_index(base, k) < before.len() ==> before[level_index(base, k)] is None,
    ensures
        shape_at(after, level_index(base, j)) == shape_at(other, j),
    decreases (if j < other.len() {
        other.len() - j
    } else {
        0
    }),
{
    let n = other.len() as int;
    let p = level_index(base, j);
    if j < n {
        lemma_level_index_children(base, j);
        if j < n - 1 {
            lemma_level_index_monotone(base, j, n - 1);
        }
        assert(after.len() >= level_index(base, n - 1) + 1);
        assert(after[p] == other[j]);
        if other[j] is Some {
            lemma_appended_shape(before, base, other, after, 2 * j + 1);
            lemma_appended_shape(before, base, other, after, 2 * j + 2);
        }
    } else {
        assert(!in_span(base, n, p)) by {
            if in_span(base, n, p) {
                let k = choose|k: int| 0 <= k < n && #[trigger] level_index(base, k) == p;
                lemma_level_index_monotone(base, k, j);
            }
        }
        if 0 <= p < after.len() {
            assert(after[p] == resized(before, after.len() as int)[p]);
            if p < before.len() {
                assert(before[p] is None);
            }
            assert(after[p] is None);
        }
        assert(shape_at(other, j) == Shape::<T>::Empty);
    }
}

} // verus!
