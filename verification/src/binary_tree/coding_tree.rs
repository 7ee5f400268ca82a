//! Huffman coding: a coding tree built from character counts, the codes it gives, and the
//! encoding and decoding of text with them.

use vstd::prelude::*;
use vstd::std_specs::iter::IteratorSpec;
use vstd::multiset::Multiset;
use super::linked_binary_tree::{LinkedBinaryTree, Node};
use crate::priority_queue::{Prioritized, is_max_of};
use crate::priority_queue::complete_heap::CompleteMaxHeap;
use crate::vec::MyVec;
use super::bit_stream::{
    bits_of_bytes, padded, written_bits, unread_bits, new_bit_writer, write_bit, byte_align, into_bytes, new_bit_reader,
    read_bit, push_char, lemma_padded,
};

verus! {

broadcast use {vstd::string::axiom_spec_iter, vstd::string::next_postcondition, vstd::seq_lib::group_to_multiset_ensures};

/// The test for being the character `c`.
pub open spec fn matching(c: char) -> spec_fn(char) -> bool {
    |x: char| x == c
}

/// How many times `c` occurs in `s`.
pub open spec fn occurrences(s: Seq<char>, c: char) -> nat {
    s.filter(matching(c)).len()
}

/// The sum of the counts of a table.
pub open spec fn total_count(t: Seq<(char, usize)>) -> int
    decreases t.len(),
{
    if t.len() == 0 {
        0
    } else {
        total_count(t.drop_last()) + t.last().1
    }
}

/// Whether `table` lists each character of `s` once, in increasing order, with the number
/// of times it occurs in `s`.
pub open spec fn counts_of(table: Seq<(char, usize)>, s: Seq<char>) -> bool {
    &&& forall|i: int, j: int| 0 <= i < j < table.len() ==> (#[trigger] table[i]).0 < (#[trigger] table[j]).0
    &&& forall|i: int| 0 <= i < table.len() ==> (#[trigger] table[i]).1 == occurrences(s, table[i].0)
    &&& forall|c: char| #[trigger] s.contains(c) <==> exists|i: int| 0 <= i < table.len() && (#[trigger] table[i]).0 == c
}

/// The counts of the distinct characters of `s`, one for each character.
pub open spec fn char_counts(s: Seq<char>) -> Multiset<int> {
    table_counts(choose|t: Seq<(char, usize)>| counts_of(t, s))
}

/// Whether the table lists the character `c`.
pub open spec fn lists(t: Seq<(char, usize)>, c: char) -> bool {
    exists|i: int| 0 <= i < t.len() && (#[trigger] t[i]).0 == c
}

/// Two tables sorted by character, holding the same characters each with its count in `s`,
/// are equal.
proof fn lemma_tables_equal(t1: Seq<(char, usize)>, t2: Seq<(char, usize)>, s: Seq<char>)
    requires
        forall|i: int, j: int| 0 <= i < j < t1.len() ==> (#[trigger] t1[i]).0 < (#[trigger] t1[j]).0,
        forall|i: int, j: int| 0 <= i < j < t2.len() ==> (#[trigger] t2[i]).0 < (#[trigger] t2[j]).0,
        forall|i: int| 0 <= i < t1.len() ==> (#[trigger] t1[i]).1 == occurrences(s, t1[i].0),
        forall|i: int| 0 <= i < t2.len() ==> (#[trigger] t2[i]).1 == occurrences(s, t2[i].0),
        forall|c: char| #[trigger] lists(t1, c) <==> lists(t2, c),
    ensures
        t1 == t2,
    decreases t1.len(),
{
    if t1.len() == 0 {
        if t2.len() > 0 {
            assert(lists(t2, t2[0].0));
            assert(lists(t1, t2[0].0));
        }
        assert(t1 =~= t2);
    } else if t2.len() == 0 {
        assert(lists(t1, t1[0].0));
        assert(lists(t2, t1[0].0));
    } else {
        let n1 = t1.len() - 1;
        let n2 = t2.len() - 1;
        let a = t1[n1];
        let b = t2[n2];
        assert(lists(t1, a.0));
        assert(lists(t2, a.0));
        let j = choose|j: int| 0 <= j < t2.len() && (#[trigger] t2[j]).0 == a.0;
        assert(lists(t2, b.0));
        assert(lists(t1, b.0));
        let i = choose|i: int| 0 <= i < t1.len() && (#[trigger] t1[i]).0 == b.0;
        if j < n2 {
            assert(t2[j].0 < t2[n2].0);
        }
        if i < n1 {
            assert(t1[i].0 < t1[n1].0);
        }
        assert(a.0 == b.0);
        assert(a == b);
        let u1 = t1.drop_last();
        let u2 = t2.drop_last();
        assert forall|c: char| #[trigger] lists(u1, c) <==> lists(u2, c) by {
            if lists(u1, c) {
                let i = choose|i: int| 0 <= i < u1.len() && (#[trigger] u1[i]).0 == c;
                assert(t1[i].0 < t1[n1].0);
                assert(t1[i].0 == c);
                assert(lists(t1, c));
                let j = choose|j: int| 0 <= j < t2.len() && (#[trigger] t2[j]).0 == c;
                assert(j != n2);
                assert(u2[j].0 == c);
            }
            if lists(u2, c) {
                let j = choose|j: int| 0 <= j < u2.len() && (#[trigger] u2[j]).0 == c;
                assert(t2[j].0 < t2[n2].0);
                assert(t2[j].0 == c);
                assert(lists(t2, c));
                assert(lists(t1, c));
                let i = choose|i: int| 0 <= i < t1.len() && (#[trigger] t1[i]).0 == c;
                assert(i != n1);
                assert(u1[i].0 == c);
            }
        }
        lemma_tables_equal(u1, u2, s);
        assert(t1 =~= u1.push(a));
        assert(t2 =~= u2.push(b));
    }
}

/// Every table of the character counts of `s` has the counts `char_counts(s)`.
pub proof fn lemma_char_counts(table: Seq<(char, usize)>, s: Seq<char>)
    requires
        counts_of(table, s),
    ensures
        table_counts(table) == char_counts(s),
{
    let t = choose|t: Seq<(char, usize)>| counts_of(t, s);
    assert(counts_of(t, s));
    assert forall|c: char| #[trigger] lists(table, c) <==> lists(t, c) by {
        if lists(table, c) {
            assert(s.contains(c));
        }
        if lists(t, c) {
            assert(s.contains(c));
        }
    }
    lemma_tables_equal(table, t, s);
}

/// Changing one count of a table changes its sum by the difference.
proof fn lemma_total_update(t: Seq<(char, usize)>, i: int, v: (char, usize))
    requires
        0 <= i < t.len(),
    ensures
        total_count(t.update(i, v)) == total_count(t) - t[i].1 + v.1,
    decreases t.len(),
{
    let u = t.update(i, v);
    if i == t.len() - 1 {
        assert(u.drop_last() =~= t.drop_last());
    } else {
        assert(u.drop_last() =~= t.drop_last().update(i, v));
        lemma_total_update(t.drop_last(), i, v);
    }
}

/// Inserting an entry into a table adds its count to the sum.
proof fn lemma_total_insert(t: Seq<(char, usize)>, i: int, v: (char, usize))
    requires
        0 <= i <= t.len(),
    ensures
        total_count(t.insert(i, v)) == total_count(t) + v.1,
    decreases t.len(),
{
    let u = t.insert(i, v);
    if i == t.len() {
        assert(u.drop_last() =~= t);
    } else {
        assert(u.drop_last() =~= t.drop_last().insert(i, v));
        lemma_total_insert(t.drop_last(), i, v);
    }
}

/// Counts the occurrences of each character of `text`, listing the characters in
/// increasing order.
pub fn char_count(text: &str) -> (table: Vec<(char, usize)>)
    ensures
        counts_of(table@, text@),
        total_count(table@) == text@.len(),
        text@.len() <= usize::MAX,
{
    let n = text.unicode_len();
    let mut table: Vec<(char, usize)> = Vec::new();
    let mut it = text.chars();
    let mut k: usize = 0;
    proof {
        assert(text@.take(0) =~= Seq::<char>::empty());
    }
    loop
        invariant
            n == text@.len(),
            k <= n,
            it.remaining() == text@.skip(k as int),
            it.decrease() is Some,
            counts_of(table@, text@.take(k as int)),
            total_count(table@) == k,
        ensures
            k == n,
            counts_of(table@, text@.take(k as int)),
            total_count(table@) == k,
        decreases it.decrease()->0,
    {
        let ghost before = it.remaining();
        let next = it.next();
        match next {
            None => {
                proof {
                    assert(text@.skip(k as int).len() == 0);
                }
                break;
            },
            Some(c) => {
                let ghost p = text@.take(k as int);
                proof {
                    assert(before[0] == c);
                    assert(text@[k as int] == c);
                    assert(text@.take(k + 1) =~= p.push(c));
                    assert(it.remaining() =~= text@.skip(k + 1));
                }
                let mut i: usize = 0;
                while i < table.len() && table[i].0 < c
                    invariant
                        i <= table@.len(),
                        forall|j: int| 0 <= j < i ==> (#[trigger] table@[j]).0 < c,
                    decreases table@.len() - i,
                {
                    i = i + 1;
                }
                let ghost t0 = table@;
                let ghost q = p.push(c);
                proof {
                    p.lemma_filter_push(c, matching(c));
                    assert forall|d: char| d != c implies occurrences(q, d) == occurrences(p, d) by {
                        p.lemma_filter_push(c, matching(d));
                    }
                    assert(occurrences(p, c) <= k) by {
                        p.lemma_filter_len(matching(c));
                    }
                }
                if i < table.len() && table[i].0 == c {
                    let cnt = table[i].1;
                    table.set(i, (c, cnt + 1));
                    proof {
                        lemma_total_update(t0, i as int, (c, (cnt + 1) as usize));
                        assert forall|d: char| #[trigger] q.contains(d) <==> exists|j: int| 0 <= j < table@.len() && (#[trigger] table@[j]).0 == d by {
                            if q.contains(d) && d != c {
                                let m = choose|m: int| 0 <= m < q.len() && q[m] == d;
                                assert(p[m] == d);
                                assert(p.contains(d));
                                let j = choose|j: int| 0 <= j < t0.len() && (#[trigger] t0[j]).0 == d;
                                assert(table@[j].0 == d);
                            }
                            if d == c {
                                assert(q[q.len() - 1] == c);
                                assert(table@[i as int].0 == d);
                            }
                            if exists|j: int| 0 <= j < table@.len() && (#[trigger] table@[j]).0 == d {
                                let j = choose|j: int| 0 <= j < table@.len() && (#[trigger] table@[j]).0 == d;
                                if d != c {
                                    assert(t0[j].0 == d);
                                    assert(p.contains(d));
                                    let m = choose|m: int| 0 <= m < p.len() && p[m] == d;
                                    assert(q[m] == d);
                                } else {
                                    assert(q[q.len() - 1] == c);
                                }
                            }
                        }
                    }
                } else {
                    table.insert(i, (c, 1));
                    proof {
                        lemma_total_insert(t0, i as int, (c, 1usize));
                        assert(!p.contains(c)) by {
                            if p.contains(c) {
                                let j = choose|j: int| 0 <= j < t0.len() && (#[trigger] t0[j]).0 == c;
                                if j < i {
                                    assert(t0[j].0 < c);
                                } else if j > i {
                                    assert(t0[i as int].0 < t0[j].0);
                                }
                            }
                        }
                        assert(occurrences(p, c) == 0) by {
                            if occurrences(p, c) > 0 {
                                let f = p.filter(matching(c));
                                assert(f.len() > 0);
                                p.lemma_filter_pred(matching(c), 0);
                                assert(f[0] == c);
                                assert(f.contains(f[0]));
                                p.lemma_filter_contains_rev(matching(c), f[0]);
                            }
                        }
                        assert forall|a: int, b: int| 0 <= a < b < table@.len() implies (#[trigger] table@[a]).0 < (#[trigger] table@[b]).0 by {
                            if a < i && b > i {
                                assert(table@[a] == t0[a]);
                                assert(table@[b] == t0[b - 1]);
                                assert(t0[i as int].0 >= c);
                                if b - 1 > i {
                                    assert(t0[i as int].0 < t0[b - 1].0);
                                }
                            } else if a < i && b == i {
                            } else if a == i && b > i {
                                assert(table@[b] == t0[b - 1]);
                                if b - 1 > i {
                                    assert(t0[i as int].0 < t0[b - 1].0);
                                }
                                assert(t0[i as int].0 != c);
                            } else if b < i {
                                assert(table@[a] == t0[a] && table@[b] == t0[b]);
                            } else {
                                assert(table@[a] == t0[a - 1] && table@[b] == t0[b - 1]);
                            }
                        }
                        assert forall|j: int| 0 <= j < table@.len() implies (#[trigger] table@[j]).1 == occurrences(q, table@[j].0) by {
                            if j < i {
                                assert(table@[j] == t0[j]);
                            } else if j > i {
                                assert(table@[j] == t0[j - 1]);
                            }
                        }
                        assert forall|d: char| #[trigger] q.contains(d) <==> exists|j: int| 0 <= j < table@.len() && (#[trigger] table@[j]).0 == d by {
                            if q.contains(d) && d != c {
                                let m = choose|m: int| 0 <= m < q.len() && q[m] == d;
                                assert(p[m] == d);
                                assert(p.contains(d));
                                let j = choose|j: int| 0 <= j < t0.len() && (#[trigger] t0[j]).0 == d;
                                if j < i {
                                    assert(table@[j].0 == d);
                                } else {
                                    assert(table@[j + 1].0 == d);
                                }
                            }
                            if d == c {
                                assert(q[q.len() - 1] == c);
                                assert(table@[i as int].0 == d);
                            }
                            if exists|j: int| 0 <= j < table@.len() && (#[trigger] table@[j]).0 == d {
                                let j = choose|j: int| 0 <= j < table@.len() && (#[trigger] table@[j]).0 == d;
                                if d != c {
                                    if j < i {
                                        assert(t0[j].0 == d);
                                    } else {
                                        assert(t0[j - 1].0 == d);
                                    }
                                    assert(p.contains(d));
                                    let m = choose|m: int| 0 <= m < p.len() && p[m] == d;
                                    assert(q[m] == d);
                                } else {
                                    assert(q[q.len() - 1] == c);
                                }
                            }
                        }
                    }
                }
                k = k + 1;
            },
        }
    }
    proof {
        assert(text@.take(k as int) =~= text@);
    }
    table
}


/// A node of a coding tree: a leaf holds a character, an inner node none; each holds the
/// number of occurrences of the characters below it.
pub struct HuffmanChar {
    pub ch: Option<char>,
    pub count: usize,
}

impl HuffmanChar {
    /// A node value for `ch` (or none) with `count` occurrences.
    fn new(ch: Option<char>, count: usize) -> (h: Self)
        ensures
            h.ch == ch,
            h.count == count,
    {
        HuffmanChar { ch, count }
    }
}

/// The count held at the root of a tree (zero for an empty tree).
pub open spec fn root_count(l: Option<Box<Node<HuffmanChar>>>) -> int {
    match l {
        Some(n) => n.elem.count as int,
        None => 0,
    }
}

/// A tree whose root count is smaller comes out of a max-queue first.
impl Prioritized for LinkedBinaryTree<HuffmanChar> {
    open spec fn priority(&self) -> int {
        -root_count(self.root)
    }

    fn less_than(&self, other: &Self) -> (r: bool) {
        count_of(self) > count_of(other)
    }
}

/// The count held at the root of `t`.
fn count_of(t: &LinkedBinaryTree<HuffmanChar>) -> (c: usize)
    ensures
        c == root_count(t.root),
{
    match &t.root {
        Some(n) => n.elem.count,
        None => 0,
    }
}

/// Whether a node has no child.
pub open spec fn is_leaf_node(n: Node<HuffmanChar>) -> bool {
    n.left is None && n.right is None
}

/// Whether the tree is a coding tree: every leaf holds a character, every other node
/// holds none and has two children.
pub open spec fn coding_shape(l: Option<Box<Node<HuffmanChar>>>) -> bool
    decreases l,
{
    match l {
        None => false,
        Some(n) => if is_leaf_node(*n) {
            n.elem.ch is Some
        } else {
            &&& n.left is Some
            &&& n.right is Some
            &&& n.elem.ch is None
            &&& coding_shape(n.left)
            &&& coding_shape(n.right)
        },
    }
}

/// Whether a leaf of the tree holds `c`.
pub open spec fn has_leaf(l: Option<Box<Node<HuffmanChar>>>, c: char) -> bool
    decreases l,
{
    match l {
        None => false,
        Some(n) => (is_leaf_node(*n) && n.elem.ch == Some(c)) || has_leaf(n.left, c) || has_leaf(n.right, c),
    }
}

/// The subtree reached from `l` by the directions `p` (`true` for left).
pub open spec fn follow(l: Option<Box<Node<HuffmanChar>>>, p: Seq<bool>) -> Option<Box<Node<HuffmanChar>>>
    decreases p.len(),
{
    if p.len() == 0 {
        l
    } else {
        match l {
            None => None,
            Some(n) => follow(
                if p[0] {
                    n.left
                } else {
                    n.right
                },
                p.drop_first(),
            ),
        }
    }
}

/// Whether the directions `p` lead from `l` to a leaf holding `c`.
pub open spec fn code_for(l: Option<Box<Node<HuffmanChar>>>, p: Seq<bool>, c: char) -> bool {
    follow(l, p) matches Some(n) && is_leaf_node(*n) && n.elem.ch == Some(c)
}

/// The sum of the root counts of a sequence of trees.
pub open spec fn tree_total(s: Seq<LinkedBinaryTree<HuffmanChar>>) -> int
    decreases s.len(),
{
    if s.len() == 0 {
        0
    } else {
        tree_total(s.drop_last()) + root_count(s.last().root)
    }
}

/// The sum of counts is never negative.
proof fn lemma_tree_total_nonneg(s: Seq<LinkedBinaryTree<HuffmanChar>>)
    ensures
        tree_total(s) >= 0,
    decreases s.len(),
{
    if s.len() > 0 {
        lemma_tree_total_nonneg(s.drop_last());
    }
}

/// Removing one tree from a sequence removes its count from the sum.
proof fn lemma_tree_total_remove(s: Seq<LinkedBinaryTree<HuffmanChar>>, j: int)
    requires
        0 <= j < s.len(),
    ensures
        tree_total(s) == tree_total(s.remove(j)) + root_count(s[j].root),
    decreases s.len(),
{
    if j < s.len() - 1 {
        assert(s.remove(j).drop_last() =~= s.drop_last().remove(j));
        lemma_tree_total_remove(s.drop_last(), j);
    } else {
        assert(s.remove(j) =~= s.drop_last());
    }
}

/// Two sequences holding the same trees have the same sum of counts.
proof fn lemma_tree_total_perm(s: Seq<LinkedBinaryTree<HuffmanChar>>, t: Seq<LinkedBinaryTree<HuffmanChar>>)
    requires
        s.to_multiset() == t.to_multiset(),
    ensures
        tree_total(s) == tree_total(t),
    decreases s.len(),
{
    if s.len() == 0 {
        assert(s.to_multiset().len() == 0);
        assert(t.to_multiset().len() == t.len());
        assert(t.len() == 0);
    } else {
        let x = s.last();
        assert(s =~= s.drop_last().push(x));
        assert(s.to_multiset().count(x) > 0);
        assert(t.contains(x));
        let j = choose|j: int| 0 <= j < t.len() && t[j] == x;
        lemma_tree_total_remove(t, j);
        assert(t.remove(j).to_multiset() =~= t.to_multiset().remove(x));
        assert(s.drop_last().to_multiset() =~= s.to_multiset().remove(x));
        lemma_tree_total_perm(s.drop_last(), t.remove(j));
    }
}

/// The sum of the counts held at the inner nodes of a tree: what the merges that built it
/// cost.
pub open spec fn tree_cost(l: Option<Box<Node<HuffmanChar>>>) -> int
    decreases l,
{
    match l {
        None => 0,
        Some(n) => if is_leaf_node(*n) {
            0
        } else {
            n.elem.count as int + tree_cost(n.left) + tree_cost(n.right)
        },
    }
}

/// The root counts of a sequence of trees.
pub open spec fn root_counts(s: Seq<LinkedBinaryTree<HuffmanChar>>) -> Multiset<int>
    decreases s.len(),
{
    if s.len() == 0 {
        Multiset::empty()
    } else {
        root_counts(s.drop_last()).insert(root_count(s.last().root))
    }
}

/// The sum of the merge costs of a sequence of trees.
pub open spec fn cost_total(s: Seq<LinkedBinaryTree<HuffmanChar>>) -> int
    decreases s.len(),
{
    if s.len() == 0 {
        0
    } else {
        cost_total(s.drop_last()) + tree_cost(s.last().root)
    }
}

/// How many leaves of a sequence of trees hold `c`.
pub open spec fn leaf_total(s: Seq<LinkedBinaryTree<HuffmanChar>>, c: char) -> nat
    decreases s.len(),
{
    if s.len() == 0 {
        0
    } else {
        leaf_total(s.drop_last(), c) + leaves_with(s.last().root, c)
    }
}

/// The counts of a table.
pub open spec fn table_counts(t: Seq<(char, usize)>) -> Multiset<int>
    decreases t.len(),
{
    if t.len() == 0 {
        Multiset::empty()
    } else {
        table_counts(t.drop_last()).insert(t.last().1 as int)
    }
}

/// Taking a tree out of a sequence takes its root count and its cost out.
proof fn lemma_counts_remove(s: Seq<LinkedBinaryTree<HuffmanChar>>, j: int)
    requires
        0 <= j < s.len(),
    ensures
        root_counts(s) == root_counts(s.remove(j)).insert(root_count(s[j].root)),
        cost_total(s) == cost_total(s.remove(j)) + tree_cost(s[j].root),
        forall|c: char| #[trigger] leaf_total(s, c) == leaf_total(s.remove(j), c) + leaves_with(s[j].root, c),
    decreases s.len(),
{
    broadcast use vstd::multiset::group_multiset_axioms;
    if j < s.len() - 1 {
        assert(s.remove(j).drop_last() =~= s.drop_last().remove(j));
        lemma_counts_remove(s.drop_last(), j);
        assert(s.remove(j).last() == s.last());
        assert(root_counts(s) =~= root_counts(s.remove(j)).insert(root_count(s[j].root)));
        assert forall|c: char| #[trigger] leaf_total(s, c) == leaf_total(s.remove(j), c) + leaves_with(s[j].root, c) by {
            assert(leaf_total(s.remove(j), c) == leaf_total(s.remove(j).drop_last(), c) + leaves_with(s.remove(j).last().root, c));
            assert(leaf_total(s.drop_last(), c) == leaf_total(s.drop_last().remove(j), c) + leaves_with(s.drop_last()[j].root, c));
            assert(s.drop_last()[j] == s[j]);
        }
    } else {
        assert(s.remove(j) =~= s.drop_last());
    }
}

/// Two sequences holding the same trees have the same root counts and costs.
proof fn lemma_counts_perm(s: Seq<LinkedBinaryTree<HuffmanChar>>, t: Seq<LinkedBinaryTree<HuffmanChar>>)
    requires
        s.to_multiset() == t.to_multiset(),
    ensures
        root_counts(s) == root_counts(t),
        cost_total(s) == cost_total(t),
        forall|c: char| #[trigger] leaf_total(s, c) == leaf_total(t, c),
    decreases s.len(),
{
    if s.len() == 0 {
        assert(s.to_multiset().len() == 0);
        assert(t.to_multiset().len() == t.len());
        assert(t.len() == 0);
    } else {
        let x = s.last();
        assert(s =~= s.drop_last().push(x));
        assert(s.to_multiset().count(x) > 0);
        assert(t.contains(x));
        let j = choose|j: int| 0 <= j < t.len() && t[j] == x;
        lemma_counts_remove(t, j);
        assert(t.remove(j).to_multiset() =~= t.to_multiset().remove(x));
        assert(s.drop_last().to_multiset() =~= s.to_multiset().remove(x));
        lemma_counts_perm(s.drop_last(), t.remove(j));
        assert forall|c: char| #[trigger] leaf_total(s, c) == leaf_total(t, c) by {
            assert(leaf_total(s, c) == leaf_total(s.drop_last(), c) + leaves_with(x.root, c));
        }
    }
}

/// The root counts of a sequence are as many as its trees, each the count of one of them.
proof fn lemma_root_counts(s: Seq<LinkedBinaryTree<HuffmanChar>>)
    ensures
        root_counts(s).len() == s.len(),
        forall|y: int| #[trigger] root_counts(s).contains(y) ==> exists|k: int| 0 <= k < s.len() && root_count(s[k].root) == y,
    decreases s.len(),
{
    broadcast use vstd::multiset::group_multiset_axioms;
    if s.len() > 0 {
        lemma_root_counts(s.drop_last());
        vstd::multiset::lemma_insert_len(root_counts(s.drop_last()), root_count(s.last().root));
        assert forall|y: int| #[trigger] root_counts(s).contains(y) implies exists|k: int| 0 <= k < s.len() && root_count(s[k].root) == y by {
            if y != root_count(s.last().root) {
                assert(root_counts(s.drop_last()).contains(y));
                let k = choose|k: int| 0 <= k < s.drop_last().len() && root_count(s.drop_last()[k].root) == y;
                assert(s[k] == s.drop_last()[k]);
            } else {
                assert(root_count(s[s.len() - 1].root) == y);
            }
        }
    }
}

/// How many leaves of the tree hold `c`.
pub open spec fn leaves_with(l: Option<Box<Node<HuffmanChar>>>, c: char) -> nat
    decreases l,
{
    match l {
        None => 0,
        Some(n) => if is_leaf_node(*n) {
            if n.elem.ch == Some(c) {
                1
            } else {
                0
            }
        } else {
            leaves_with(n.left, c) + leaves_with(n.right, c)
        },
    }
}

/// The sum of the depths of the leaves that hold `c`.
pub open spec fn leaf_depth(l: Option<Box<Node<HuffmanChar>>>, c: char) -> int
    decreases l,
{
    match l {
        None => 0,
        Some(n) => if is_leaf_node(*n) {
            0
        } else {
            leaf_depth(n.left, c) + leaves_with(n.left, c) + leaf_depth(n.right, c) + leaves_with(n.right, c)
        },
    }
}

/// Every leaf counts the occurrences of its character in `s`, and every other node holds
/// the sum of its children's counts.
pub open spec fn counts_ok(l: Option<Box<Node<HuffmanChar>>>, s: Seq<char>) -> bool
    decreases l,
{
    match l {
        None => true,
        Some(n) => if is_leaf_node(*n) {
            n.elem.ch matches Some(c) && n.elem.count == occurrences(s, c)
        } else {
            &&& n.elem.count == root_count(n.left) + root_count(n.right)
            &&& counts_ok(n.left, s)
            &&& counts_ok(n.right, s)
        },
    }
}

/// The sum of `f` over the characters of `s`.
pub open spec fn sum_over(s: Seq<char>, f: spec_fn(char) -> int) -> int
    decreases s.len(),
{
    if s.len() == 0 {
        0
    } else {
        sum_over(s.drop_last(), f) + f(s.last())
    }
}

/// A sum of two functions sums to the sum of their sums.
proof fn lemma_sum_add(s: Seq<char>, f: spec_fn(char) -> int, g: spec_fn(char) -> int, h: spec_fn(char) -> int)
    requires
        forall|c: char| #[trigger] h(c) == f(c) + g(c),
    ensures
        sum_over(s, h) == sum_over(s, f) + sum_over(s, g),
    decreases s.len(),
{
    if s.len() > 0 {
        lemma_sum_add(s.drop_last(), f, g, h);
    }
}

/// Counting one for each character equal to `c` counts the occurrences of `c`.
proof fn lemma_sum_occurrences(s: Seq<char>, c: char, f: spec_fn(char) -> int)
    requires
        forall|x: char| #[trigger] f(x) == if x == c { 1int } else { 0int },
    ensures
        sum_over(s, f) == occurrences(s, c),
    decreases s.len(),
{
    if s.len() > 0 {
        lemma_sum_occurrences(s.drop_last(), c, f);
        assert(s =~= s.drop_last().push(s.last()));
        s.drop_last().lemma_filter_push(s.last(), matching(c));
    } else {
        reveal(Seq::filter);
    }
}

/// In a tree whose counts are those of `s`, the count at the root is the number of
/// characters of `s` held by a leaf (with repeats).
proof fn lemma_root_count_hits(l: Option<Box<Node<HuffmanChar>>>, s: Seq<char>)
    requires
        coding_shape(l),
        counts_ok(l, s),
    ensures
        root_count(l) == sum_over(s, |c: char| leaves_with(l, c) as int),
    decreases l,
{
    let n = l->0;
    if is_leaf_node(*n) {
        let c = n.elem.ch->0;
        lemma_sum_occurrences(s, c, |x: char| leaves_with(l, x) as int);
    } else {
        lemma_root_count_hits(n.left, s);
        lemma_root_count_hits(n.right, s);
        lemma_sum_add(s, |c: char| leaves_with(n.left, c) as int, |c: char| leaves_with(n.right, c) as int, |c: char| leaves_with(l, c) as int);
    }
}

/// In a tree whose counts are those of `s`, the merge cost is the sum, over the characters
/// of `s`, of the depths of their leaves.
proof fn lemma_cost_depths(l: Option<Box<Node<HuffmanChar>>>, s: Seq<char>)
    requires
        coding_shape(l),
        counts_ok(l, s),
    ensures
        tree_cost(l) == sum_over(s, |c: char| leaf_depth(l, c)),
    decreases l,
{
    let n = l->0;
    if is_leaf_node(*n) {
        lemma_sum_zero(s, |c: char| leaf_depth(l, c));
    } else {
        lemma_cost_depths(n.left, s);
        lemma_cost_depths(n.right, s);
        lemma_root_count_hits(n.left, s);
        lemma_root_count_hits(n.right, s);
        let fl = |c: char| leaf_depth(n.left, c) + leaves_with(n.left, c);
        let fr = |c: char| leaf_depth(n.right, c) + leaves_with(n.right, c);
        lemma_sum_add(s, |c: char| leaf_depth(n.left, c), |c: char| leaves_with(n.left, c) as int, fl);
        lemma_sum_add(s, |c: char| leaf_depth(n.right, c), |c: char| leaves_with(n.right, c) as int, fr);
        lemma_sum_add(s, fl, fr, |c: char| leaf_depth(l, c));
    }
}

/// A function that is zero everywhere sums to zero.
proof fn lemma_sum_zero(s: Seq<char>, f: spec_fn(char) -> int)
    requires
        forall|c: char| #[trigger] f(c) == 0,
    ensures
        sum_over(s, f) == 0,
    decreases s.len(),
{
    if s.len() > 0 {
        lemma_sum_zero(s.drop_last(), f);
    }
}

/// A tree with no leaf holding `c` gives `c` no depth.
proof fn lemma_no_leaf_depth(l: Option<Box<Node<HuffmanChar>>>, c: char)
    requires
        leaves_with(l, c) == 0,
    ensures
        leaf_depth(l, c) == 0,
    decreases l,
{
    match l {
        None => {},
        Some(n) => {
            if !is_leaf_node(*n) {
                lemma_no_leaf_depth(n.left, c);
                lemma_no_leaf_depth(n.right, c);
            }
        },
    }
}

/// A code of `c` in a tree with one leaf holding `c` is as long as that leaf is deep.
proof fn lemma_code_depth(l: Option<Box<Node<HuffmanChar>>>, p: Seq<bool>, c: char)
    requires
        coding_shape(l),
        code_for(l, p, c),
        leaves_with(l, c) <= 1,
    ensures
        leaves_with(l, c) == 1,
        p.len() == leaf_depth(l, c),
    decreases p.len(),
{
    let n = l->0;
    if p.len() == 0 {
    } else if is_leaf_node(*n) {
        assert(follow(l, p) is None) by {
            lemma_follow_none(p.drop_first());
        }
    } else {
        if p[0] {
            lemma_code_depth(n.left, p.drop_first(), c);
            lemma_no_leaf_depth(n.right, c);
        } else {
            lemma_code_depth(n.right, p.drop_first(), c);
            lemma_no_leaf_depth(n.left, c);
        }
    }
}

/// The codes of the characters of `s`, one after the other, are as long as the sum of the
/// depths of the leaves of those characters, in a tree with at most one leaf for each.
proof fn lemma_codes_len(l: Option<Box<Node<HuffmanChar>>>, codes: Seq<Seq<bool>>, s: Seq<char>)
    requires
        coding_shape(l),
        codes.len() == s.len(),
        forall|j: int| 0 <= j < codes.len() ==> code_for(l, #[trigger] codes[j], s[j]),
        forall|c: char| #[trigger] leaves_with(l, c) <= 1,
    ensures
        codes.flatten().len() == sum_over(s, |c: char| leaf_depth(l, c)),
    decreases s.len(),
{
    if s.len() > 0 {
        let k = s.len() - 1;
        let u = codes.drop_last();
        assert forall|j: int| 0 <= j < u.len() implies code_for(l, #[trigger] u[j], s.drop_last()[j]) by {
            assert(u[j] == codes[j]);
        }
        lemma_codes_len(l, u, s.drop_last());
        assert(codes =~= u.push(codes[k]));
        u.lemma_flatten_push(codes[k]);
        assert(code_for(l, codes[k], s[k]));
        assert(leaves_with(l, s[k]) <= 1);
        lemma_code_depth(l, codes[k], s[k]);
    }
}

/// One round of Huffman's merging: the trees of the two least root counts leave the forest
/// `s0` and their join comes in; the merge costs of the forest plus what Huffman's merging
/// of its root counts still costs stay the same.
proof fn lemma_merge_step(
    s0: Seq<LinkedBinaryTree<HuffmanChar>>,
    s1: Seq<LinkedBinaryTree<HuffmanChar>>,
    s2: Seq<LinkedBinaryTree<HuffmanChar>>,
    s3: Seq<LinkedBinaryTree<HuffmanChar>>,
    lhs: LinkedBinaryTree<HuffmanChar>,
    rhs: LinkedBinaryTree<HuffmanChar>,
    joined: LinkedBinaryTree<HuffmanChar>,
)
    requires
        s0.len() >= 2,
        s1.push(lhs).to_multiset() == s0.to_multiset(),
        s2.push(rhs).to_multiset() == s1.to_multiset(),
        s3.to_multiset() == s2.push(joined).to_multiset(),
        is_max_of(lhs, s0),
        is_max_of(rhs, s1),
        lhs.root is Some,
        joined.root matches Some(n) && n.left == lhs.root && n.right == rhs.root && n.elem.count == root_count(
            lhs.root,
        ) + root_count(rhs.root),
    ensures
        cost_total(s3) + huffman_cost(root_counts(s3)) == cost_total(s0) + huffman_cost(root_counts(s0)),
        forall|c: char| #[trigger] leaf_total(s3, c) == leaf_total(s0, c),
{
    broadcast use vstd::multiset::group_multiset_axioms;
    let cl = root_count(lhs.root);
    let cr = root_count(rhs.root);
    lemma_counts_perm(s1.push(lhs), s0);
    lemma_counts_perm(s2.push(rhs), s1);
    lemma_counts_perm(s3, s2.push(joined));
    assert(s1.push(lhs).drop_last() =~= s1);
    assert(s2.push(rhs).drop_last() =~= s2);
    assert(s2.push(joined).drop_last() =~= s2);
    let m0 = root_counts(s0);
    let m1 = root_counts(s1);
    let m2 = root_counts(s2);
    assert(m0 == m1.insert(cl));
    assert(m1 == m2.insert(cr));
    assert(m1 =~= m0.remove(cl));
    assert(m2 =~= m1.remove(cr));
    lemma_root_counts(s0);
    lemma_root_counts(s1);
    lemma_least(m0);
    assert(m0.contains(cl));
    assert(least(m0) == cl) by {
        let k = choose|k: int| 0 <= k < s0.len() && root_count(s0[k].root) == least(m0);
        assert(s0[k].priority() <= lhs.priority());
    }
    lemma_least(m1);
    assert(m1.contains(cr));
    assert(least(m1) == cr) by {
        let k = choose|k: int| 0 <= k < s1.len() && root_count(s1[k].root) == least(m1);
        assert(s1[k].priority() <= rhs.priority());
    }
    assert(root_counts(s3) =~= m0.remove(cl).remove(cr).insert(cl + cr));
    assert(tree_cost(joined.root) == cl + cr + tree_cost(lhs.root) + tree_cost(rhs.root));
    assert forall|c: char| #[trigger] leaf_total(s3, c) == leaf_total(s0, c) by {
        assert(leaves_with(joined.root, c) == leaves_with(lhs.root, c) + leaves_with(rhs.root, c));
        assert(leaf_total(s1.push(lhs), c) == leaf_total(s1, c) + leaves_with(lhs.root, c));
        assert(leaf_total(s2.push(rhs), c) == leaf_total(s2, c) + leaves_with(rhs.root, c));
        assert(leaf_total(s2.push(joined), c) == leaf_total(s2, c) + leaves_with(joined.root, c));
    }
}

/// The least value of a multiset of integers (any integer for an empty one).
pub open spec fn least(m: Multiset<int>) -> int {
    m.dom().find_unique_minimal(int_le())
}

/// The order `<=` on integers.
pub open spec fn int_le() -> spec_fn(int, int) -> bool {
    |a: int, b: int| a <= b
}

/// A nonempty multiset holds its least value, and no value below it.
pub proof fn lemma_least(m: Multiset<int>)
    requires
        m.len() > 0,
    ensures
        m.contains(least(m)),
        forall|y: int| #[trigger] m.contains(y) ==> least(m) <= y,
{
    broadcast use vstd::multiset::group_multiset_axioms;
    broadcast use vstd::set::group_set_axioms;
    let r = int_le();
    assert(vstd::relations::total_ordering(r));
    let x = m.choose();
    assert(m.dom().contains(x));
    assert(m.dom().finite());
    assert(m.dom().len() > 0) by {
        if m.dom().len() == 0 {
            vstd::set_lib::lemma_set_empty_equivalency_len(m.dom());
        }
    }
    m.dom().find_unique_minimal_ensures(r);
    let l = least(m);
    assert forall|y: int| #[trigger] m.contains(y) implies l <= y by {
        assert(m.dom().contains(y));
        assert(vstd::relations::is_minimal(r, l, m.dom()));
        if y < l {
            assert(r(y, l));
            assert(r(l, y));
        }
    }
}

/// Taking out a value that a multiset holds leaves one value fewer.
pub proof fn lemma_remove_len(m: Multiset<int>, a: int)
    requires
        m.contains(a),
    ensures
        m.remove(a).len() == m.len() - 1,
{
    broadcast use vstd::multiset::group_multiset_axioms;
    assert(Multiset::singleton(a).subset_of(m));
}

/// The total cost of Huffman's merging on a multiset of counts: the two least counts are
/// taken out and their sum put back, at the cost of that sum, until one count is left.
pub open spec fn huffman_cost(m: Multiset<int>) -> int
    decreases m.len(),
{
    if m.len() <= 1 {
        0
    } else {
        let a = least(m);
        let b = least(m.remove(a));
        proof {
            lemma_least(m);
            lemma_remove_len(m, a);
            lemma_least(m.remove(a));
            lemma_remove_len(m.remove(a), b);
            vstd::multiset::lemma_insert_len(m.remove(a).remove(b), a + b);
        }
        a + b + huffman_cost(m.remove(a).remove(b).insert(a + b))
    }
}

/// Characters compare by their codes.
proof fn lemma_char_lt(a: char, b: char)
    requires
        a < b,
    ensures
        (a as int) < (b as int),
{
}

/// No character has a code above the last code point.
proof fn lemma_char_max(a: char)
    ensures
        0 <= (a as int) <= 0x10FFFF,
{
}

/// In a table of counts sorted by character, the character at position `i` has code
/// at least `i`.
proof fn lemma_table_bound(table: Seq<(char, usize)>, s: Seq<char>, i: int)
    requires
        counts_of(table, s),
        0 <= i < table.len(),
    ensures
        table[i].0 as int >= i,
    decreases i,
{
    lemma_char_max(table[i].0);
    if i > 0 {
        lemma_table_bound(table, s, i - 1);
        assert(table[i - 1].0 < table[i].0);
        lemma_char_lt(table[i - 1].0, table[i].0);
    }
}

/// Builds the coding tree of the characters counted in `table` (at least two of them):
/// the two trees of smallest count are joined under a new node until one tree is left.
fn build_tree(table: &Vec<(char, usize)>, Ghost(text): Ghost<Seq<char>>) -> (t: LinkedBinaryTree<HuffmanChar>)
    requires
        counts_of(table@, text),
        total_count(table@) == text.len(),
        text.len() <= usize::MAX,
        table@.len() >= 2,
    ensures
        coding_shape(t.root),
        t.root matches Some(n) && !is_leaf_node(*n),
        forall|c: char| text.contains(c) ==> #[trigger] has_leaf(t.root, c),
        tree_cost(t.root) == huffman_cost(table_counts(table@)),
        counts_ok(t.root, text),
        forall|c: char| #[trigger] leaves_with(t.root, c) <= 1,
{
    let n = table.len();
    proof {
        lemma_table_bound(table@, text, n - 1);
        lemma_char_max(table@[n - 1].0);
    }
    let mut trees: Vec<LinkedBinaryTree<HuffmanChar>> = Vec::new();
    let mut i: usize = 0;
    while i < n
        invariant
            n == table@.len(),
            i <= n,
            trees@.len() == i,
            counts_of(table@, text),
            forall|j: int| 0 <= j < i ==> coding_shape((#[trigger] trees@[j]).root) && has_leaf(trees@[j].root, table@[j].0)
                && counts_ok(trees@[j].root, text),
            forall|c: char| #[trigger] leaf_total(trees@, c) <= 1 && (leaf_total(trees@, c) == 1 ==> lists(table@.take(i as int), c)),
            tree_total(trees@) == total_count(table@.take(i as int)),
            root_counts(trees@) == table_counts(table@.take(i as int)),
            cost_total(trees@) == 0,
        decreases n - i,
    {
        let (c, count) = table[i];
        let mut leaf = LinkedBinaryTree::new();
        leaf.root = Some(Box::new(Node { left: None, right: None, elem: HuffmanChar::new(Some(c), count) }));
        let ghost before = trees@;
        trees.push(leaf);
        proof {
            assert(table@.take(i + 1).drop_last() =~= table@.take(i as int));
            assert(trees@.drop_last() =~= before);
            reveal_with_fuel(has_leaf, 2);
            assert(tree_cost(trees@.last().root) == 0);
            assert forall|d: char| #[trigger] leaf_total(trees@, d) <= 1 && (leaf_total(trees@, d) == 1 ==> lists(table@.take(i + 1), d)) by {
                assert(leaf_total(trees@, d) == leaf_total(before, d) + leaves_with(trees@.last().root, d));
                if d == c {
                    if leaf_total(before, d) == 1 {
                        let k = choose|k: int| 0 <= k < table@.take(i as int).len() && (#[trigger] table@.take(i as int)[k]).0 == d;
                        assert(table@[k].0 < table@[i as int].0);
                    }
                    assert(table@.take(i + 1)[i as int].0 == d);
                } else {
                    if leaf_total(before, d) == 1 {
                        let k = choose|k: int| 0 <= k < table@.take(i as int).len() && (#[trigger] table@.take(i as int)[k]).0 == d;
                        assert(table@.take(i + 1)[k].0 == d);
                    }
                }
            }
        }
        i = i + 1;
    }
    proof {
        assert(table@.take(n as int) =~= table@);
    }
    let mut forest = CompleteMaxHeap::from(MyVec::from_vec(trees));
    proof {
        lemma_tree_total_perm(forest.spec_seq(), trees@);
        lemma_counts_perm(forest.spec_seq(), trees@);
        assert forall|t: LinkedBinaryTree<HuffmanChar>| #[trigger] forest.spec_seq().contains(t) implies coding_shape(t.root) && counts_ok(t.root, text) by {
            assert(forest.spec_seq().to_multiset().count(t) > 0);
            assert(trees@.contains(t));
        }
        assert forall|c: char| text.contains(c) implies exists|t: LinkedBinaryTree<HuffmanChar>| #[trigger] forest.spec_seq().contains(t) && has_leaf(t.root, c) by {
            let j = choose|j: int| 0 <= j < table@.len() && (#[trigger] table@[j]).0 == c;
            let t = trees@[j];
            assert(trees@.contains(t));
            assert(forest.spec_seq().to_multiset().count(t) > 0);
            assert(forest.spec_seq().contains(t));
        }
    }
    while forest.len() > 1
        invariant
            forest.wf(),
            forest.spec_seq().len() >= 1,
            forest.spec_seq().len() <= n,
            n <= 0x110000,
            tree_total(forest.spec_seq()) == text.len(),
            text.len() <= usize::MAX,
            forall|t: LinkedBinaryTree<HuffmanChar>| #[trigger] forest.spec_seq().contains(t) ==> coding_shape(t.root) && counts_ok(t.root, text),
            forall|c: char| #[trigger] leaf_total(forest.spec_seq(), c) <= 1,
            forall|c: char| text.contains(c) ==> exists|t: LinkedBinaryTree<HuffmanChar>| #[trigger] forest.spec_seq().contains(t) && has_leaf(t.root, c),
            forest.spec_seq().len() == 1 ==> (forest.spec_seq()[0].root matches Some(r) && !is_leaf_node(*r)),
            cost_total(forest.spec_seq()) + huffman_cost(root_counts(forest.spec_seq())) == huffman_cost(
                table_counts(table@),
            ),
        decreases forest.spec_seq().len(),
    {
        let ghost s0 = forest.spec_seq();
        let lhs = forest.delete_max().unwrap();
        let ghost s1 = forest.spec_seq();
        let rhs = forest.delete_max().unwrap();
        let ghost s2 = forest.spec_seq();
        proof {
            assert(s1.to_multiset().insert(lhs) == s0.to_multiset());
            vstd::seq_lib::to_multiset_build(s1, lhs);
            lemma_tree_total_perm(s1.push(lhs), s0);
            assert(s2.to_multiset().insert(rhs) == s1.to_multiset());
            vstd::seq_lib::to_multiset_build(s2, rhs);
            lemma_tree_total_nonneg(s2);
            lemma_tree_total_perm(s2.push(rhs), s1);
            assert(s1.push(lhs).drop_last() =~= s1);
            assert(s2.push(rhs).drop_last() =~= s2);
            assert(s0.to_multiset().count(lhs) > 0);
            assert(s0.contains(lhs));
            assert(s1.to_multiset().count(rhs) > 0);
            assert(s1.contains(rhs));
            let j = choose|j: int| 0 <= j < s1.len() && s1[j] == rhs;
            assert(s1.to_multiset().count(rhs) <= s0.to_multiset().count(rhs));
            assert(s0.contains(rhs));
        }
        let count = count_of(&lhs) + count_of(&rhs);
        let joined = LinkedBinaryTree {
            root: Some(Box::new(Node { left: lhs.root, right: rhs.root, elem: HuffmanChar::new(None, count) })),
        };
        forest.insert(joined);
        proof {
            let s3 = forest.spec_seq();
            assert(s3.to_multiset() =~= s2.push(joined).to_multiset());
            lemma_tree_total_perm(s3, s2.push(joined));
            assert(s2.push(joined).drop_last() =~= s2);
            assert forall|t: LinkedBinaryTree<HuffmanChar>| #[trigger] s3.contains(t) implies coding_shape(t.root) && counts_ok(t.root, text) by {
                assert(s3.to_multiset().count(t) > 0);
                if t != joined {
                    assert(s2.to_multiset().count(t) > 0);
                    assert(s1.to_multiset().count(t) > 0);
                    assert(s0.to_multiset().count(t) > 0);
                    assert(s0.contains(t));
                }
            }
            assert forall|c: char| text.contains(c) implies exists|t: LinkedBinaryTree<HuffmanChar>| #[trigger] s3.contains(t) && has_leaf(t.root, c) by {
                let t = choose|t: LinkedBinaryTree<HuffmanChar>| #[trigger] s0.contains(t) && has_leaf(t.root, c);
                assert(s0.to_multiset().count(t) > 0);
                if t == lhs || t == rhs {
                    assert(s3.to_multiset().count(joined) > 0);
                    assert(s3.contains(joined));
                    assert(has_leaf(joined.root, c));
                } else {
                    assert(s1.to_multiset().count(t) > 0);
                    assert(s2.to_multiset().count(t) > 0);
                    assert(s3.to_multiset().count(t) > 0);
                    assert(s3.contains(t));
                }
            }
            if s3.len() == 1 {
                assert(s3.to_multiset().count(joined) > 0);
                assert(s3.contains(joined));
                let k = choose|k: int| 0 <= k < s3.len() && s3[k] == joined;
                assert(k == 0);
            }
            lemma_merge_step(s0, s1, s2, s3, lhs, rhs, joined);
        }
    }
    let ghost s0 = forest.spec_seq();
    let tree = forest.delete_max().unwrap();
    proof {
        assert(s0.to_multiset().count(tree) > 0);
        assert(s0.contains(tree));
        let k0 = choose|k: int| 0 <= k < s0.len() && s0[k] == tree;
        assert(tree == s0[0]);
        assert(s0.drop_last() =~= Seq::<LinkedBinaryTree<HuffmanChar>>::empty());
        lemma_root_counts(s0);
        assert(cost_total(s0.drop_last()) == 0);
        assert forall|c: char| #[trigger] leaves_with(tree.root, c) <= 1 by {
            assert(leaf_total(s0, c) == leaf_total(s0.drop_last(), c) + leaves_with(tree.root, c));
        }
        assert(cost_total(s0) == tree_cost(tree.root));
        assert(huffman_cost(root_counts(s0)) == 0);
        assert forall|c: char| text.contains(c) implies #[trigger] has_leaf(tree.root, c) by {
            let t = choose|t: LinkedBinaryTree<HuffmanChar>| #[trigger] s0.contains(t) && has_leaf(t.root, c);
            let k = choose|k: int| 0 <= k < s0.len() && s0[k] == t;
            assert(k == 0);
        }
    }
    tree
}


/// A copy of a sequence of directions.
fn copy_bits(v: &Vec<bool>) -> (r: Vec<bool>)
    ensures
        r@ == v@,
{
    let mut r: Vec<bool> = Vec::new();
    let mut i: usize = 0;
    while i < v.len()
        invariant
            i <= v@.len(),
            r@ == v@.take(i as int),
        decreases v@.len() - i,
    {
        r.push(v[i]);
        proof {
            assert(r@ =~= v@.take(i + 1));
        }
        i = i + 1;
    }
    proof {
        assert(r@ =~= v@);
    }
    r
}

/// Following `p` and then `s` leads where following `p` followed by `s` does.
proof fn lemma_follow_append(l: Option<Box<Node<HuffmanChar>>>, p: Seq<bool>, s: Seq<bool>)
    ensures
        follow(l, p + s) == follow(follow(l, p), s),
    decreases p.len(),
{
    if p.len() == 0 {
        assert(p + s =~= s);
    } else {
        match l {
            None => {
                lemma_follow_none(p + s);
                lemma_follow_none(p);
                lemma_follow_none(s);
            },
            Some(n) => {
                assert((p + s).drop_first() =~= p.drop_first() + s);
                let next = if p[0] {
                    n.left
                } else {
                    n.right
                };
                lemma_follow_append(next, p.drop_first(), s);
            },
        }
    }
}

/// The codes of a tree are free of prefixes: the directions to one leaf are never the
/// start of longer directions to another leaf.
pub proof fn lemma_prefix_free(l: Option<Box<Node<HuffmanChar>>>, p: Seq<bool>, q: Seq<bool>, c: char, d: char)
    requires
        code_for(l, p, c),
        code_for(l, q, d),
        p.len() < q.len(),
    ensures
        q.take(p.len() as int) != p,
{
    if q.take(p.len() as int) == p {
        let s = q.skip(p.len() as int);
        assert(q =~= p + s);
        lemma_follow_append(l, p, s);
        assert(s.drop_first() =~= s.skip(1));
        lemma_follow_none(s.drop_first());
        assert(follow(follow(l, p), s) is None);
    }
}

/// Directions lead to one leaf only, so a code names one character.
pub proof fn lemma_code_unique(l: Option<Box<Node<HuffmanChar>>>, p: Seq<bool>, c: char, d: char)
    requires
        code_for(l, p, c),
        code_for(l, p, d),
    ensures
        c == d,
{
}

/// Following directions from an empty position leads nowhere.
proof fn lemma_follow_none(p: Seq<bool>)
    ensures
        follow(None, p) is None,
    decreases p.len(),
{
}

/// Appends, for each leaf below `link`, its character and the directions to it, where
/// `prefix` holds the directions to `link` itself.
fn collect_codes(link: &Option<Box<Node<HuffmanChar>>>, prefix: &mut Vec<bool>, out: &mut Vec<(char, Vec<bool>)>)
    requires
        coding_shape(*link),
    ensures
        final(prefix)@ == old(prefix)@,
        final(out)@.len() >= old(out)@.len(),
        forall|i: int| 0 <= i < old(out)@.len() ==> #[trigger] final(out)@[i] == old(out)@[i],
        forall|i: int|
            old(out)@.len() <= i < final(out)@.len() ==> (#[trigger] final(out)@[i]).1@.len() >= old(prefix)@.len()
                && final(out)@[i].1@.take(old(prefix)@.len() as int) == old(prefix)@ && code_for(
                *link,
                final(out)@[i].1@.skip(old(prefix)@.len() as int),
                final(out)@[i].0,
            ),
        forall|c: char|
            #[trigger] has_leaf(*link, c) ==> exists|i: int| old(out)@.len() <= i < final(out)@.len() && (#[trigger] final(out)@[i]).0 == c,
    decreases *link,
{
    let ghost p0 = prefix@;
    let ghost o0 = out@;
    match link {
        Some(n) => {
            if n.left.is_none() && n.right.is_none() {
                match n.elem.ch {
                    Some(c) => {
                        let code = copy_bits(prefix);
                        out.push((c, code));
                        proof {
                            assert(code@.take(p0.len() as int) =~= p0);
                            assert(code@.skip(p0.len() as int) =~= Seq::<bool>::empty());
                            assert(out@[o0.len() as int].0 == c);
                            assert forall|d: char| #[trigger] has_leaf(*link, d) implies exists|i: int| o0.len() <= i < out@.len() && (#[trigger] out@[i]).0 == d by {
                                assert(has_leaf(n.left, d) == false);
                                assert(has_leaf(n.right, d) == false);
                            }
                        }
                    },
                    None => {},
                }
            } else {
                prefix.push(true);
                let ghost pl = prefix@;
                collect_codes(&n.left, prefix, out);
                let ghost o1 = out@;
                prefix.pop();
                proof {
                    assert(prefix@ =~= p0);
                }
                prefix.push(false);
                let ghost pr = prefix@;
                collect_codes(&n.right, prefix, out);
                prefix.pop();
                proof {
                    assert(prefix@ =~= p0);
                    assert forall|i: int|
                        o0.len() <= i < out@.len() implies (#[trigger] out@[i]).1@.len() >= p0.len() && out@[i].1@.take(p0.len() as int)
                            == p0 && code_for(*link, out@[i].1@.skip(p0.len() as int), out@[i].0) by {
                        let code = out@[i].1@;
                        let (side, q) = if i < o1.len() {
                            (true, pl)
                        } else {
                            (false, pr)
                        };
                        assert(code.take(q.len() as int) == q);
                        assert(code.take(p0.len() as int) =~= q.take(p0.len() as int));
                        assert(q.take(p0.len() as int) =~= p0);
                        let rest = code.skip(p0.len() as int);
                        assert(rest[0] == side);
                        assert(rest.drop_first() =~= code.skip(q.len() as int));
                    }
                    assert forall|c: char| #[trigger] has_leaf(*link, c) implies exists|i: int| o0.len() <= i < out@.len() && (#[trigger] out@[i]).0 == c by {
                        if has_leaf(n.left, c) {
                            let i = choose|i: int| o0.len() <= i < o1.len() && (#[trigger] o1[i]).0 == c;
                            assert(out@[i] == o1[i]);
                        } else {
                            assert(has_leaf(n.right, c));
                        }
                    }
                }
            }
        },
        None => {},
    }
}

/// The characters read off by walking the tree rooted at `root` from `cur`: each bit
/// moves to the left (`true`) or right child, and reaching a leaf outputs its character
/// and starts again from the root.
pub open spec fn walk(root: Option<Box<Node<HuffmanChar>>>, cur: Option<Box<Node<HuffmanChar>>>, bits: Seq<bool>) -> Seq<char>
    decreases bits.len(),
{
    if bits.len() == 0 {
        Seq::empty()
    } else {
        let next = match cur {
            Some(n) => if bits[0] {
                n.left
            } else {
                n.right
            },
            None => None,
        };
        match next {
            Some(m) => if is_leaf_node(*m) {
                (match m.elem.ch {
                    Some(c) => seq![c],
                    None => Seq::empty(),
                }) + walk(root, root, bits.drop_first())
            } else {
                walk(root, next, bits.drop_first())
            },
            None => walk(root, None, bits.drop_first()),
        }
    }
}

/// Walking the code of a character from an inner node outputs that character and then
/// starts over from the root.
proof fn lemma_walk_code(
    root: Option<Box<Node<HuffmanChar>>>,
    cur: Option<Box<Node<HuffmanChar>>>,
    p: Seq<bool>,
    c: char,
    rest: Seq<bool>,
)
    requires
        cur matches Some(n) && !is_leaf_node(*n),
        coding_shape(cur),
        code_for(cur, p, c),
        p.len() > 0,
    ensures
        walk(root, cur, p + rest) == seq![c] + walk(root, root, rest),
    decreases p.len(),
{
    let bits = p + rest;
    let n = cur->0;
    let child = if p[0] {
        n.left
    } else {
        n.right
    };
    assert(bits[0] == p[0]);
    assert(bits.drop_first() =~= p.drop_first() + rest);
    assert(follow(cur, p) == follow(child, p.drop_first()));
    if p.len() == 1 {
        assert(p.drop_first() =~= Seq::<bool>::empty());
    } else {
        let m = child->0;
        if is_leaf_node(*m) {
            let q = p.drop_first();
            lemma_follow_none(q.drop_first());
            assert(follow(child, q) == follow(if q[0] { m.left } else { m.right }, q.drop_first()));
        }
        lemma_walk_code(root, child, p.drop_first(), c, rest);
    }
}

/// Walking the concatenated codes of a text from the root gives back the text.
pub proof fn lemma_walk_text(root: Option<Box<Node<HuffmanChar>>>, codes: Seq<Seq<bool>>, text: Seq<char>)
    requires
        root matches Some(n) && !is_leaf_node(*n),
        coding_shape(root),
        codes.len() == text.len(),
        forall|i: int| 0 <= i < codes.len() ==> code_for(root, #[trigger] codes[i], text[i]) && codes[i].len() > 0,
    ensures
        walk(root, root, codes.flatten()) == text,
    decreases codes.len(),
{
    if codes.len() == 0 {
        assert(text =~= Seq::<char>::empty());
    } else {
        lemma_walk_text(root, codes.drop_first(), text.drop_first());
        assert(codes.flatten() == codes[0] + codes.drop_first().flatten());
        lemma_walk_code(root, root, codes[0], text[0], codes.drop_first().flatten());
        assert(text =~= seq![text[0]] + text.drop_first());
    }
}


/// Whether `bits` is the code of each character of `text`, one after the other: each code
/// leads from `root` to the leaf of its character.
pub open spec fn encodes(root: Option<Box<Node<HuffmanChar>>>, text: Seq<char>, bits: Seq<bool>) -> bool {
    exists|codes: Seq<Seq<bool>>|
        #![trigger codes.flatten()]
        codes.len() == text.len() && codes.flatten() == bits && forall|j: int|
            0 <= j < codes.len() ==> code_for(root, #[trigger] codes[j], text[j])
}

/// Bits padded to whole bytes fill `(n + 7) / 8` bytes, `n` the number of bits.
proof fn lemma_byte_count(n: int, m: int)
    requires
        n >= 0,
        m * 8 == n + (8 - n % 8) % 8,
    ensures
        m == (n + 7) / 8,
{
}

/// The position of the code of `c` in a table of codes.
fn find_code(table: &Vec<(char, Vec<bool>)>, c: char) -> (i: usize)
    requires
        exists|j: int| 0 <= j < table@.len() && (#[trigger] table@[j]).0 == c,
    ensures
        i < table@.len(),
        table@[i as int].0 == c,
{
    let mut i: usize = 0;
    while i < table.len() && table[i].0 != c
        invariant
            i <= table@.len(),
            forall|j: int| 0 <= j < i ==> (#[trigger] table@[j]).0 != c,
            exists|j: int| 0 <= j < table@.len() && (#[trigger] table@[j]).0 == c,
        decreases table@.len() - i,
    {
        i = i + 1;
    }
    i
}

/// Encodes `text` with the codes of `table`: the codes of its characters one after the
/// other, packed into bytes with the last one padded by zeros, and the number of bits that
/// carry the code.
fn encode(text: &str, table: &Vec<(char, Vec<bool>)>, Ghost(root): Ghost<Option<Box<Node<HuffmanChar>>>>) -> (r: (
    Vec<u8>,
    usize,
))
    requires
        root matches Some(n) && !is_leaf_node(*n),
        coding_shape(root),
        forall|i: int| 0 <= i < table@.len() ==> code_for(root, (#[trigger] table@[i]).1@, table@[i].0),
        forall|c: char| text@.contains(c) ==> exists|i: int| 0 <= i < table@.len() && (#[trigger] table@[i]).0 == c,
    ensures
        r.1 <= bits_of_bytes(r.0@).len(),
        walk(root, root, bits_of_bytes(r.0@).take(r.1 as int)) == text@,
        encodes(root, text@, bits_of_bytes(r.0@).take(r.1 as int)),
        bits_of_bytes(r.0@) == padded(bits_of_bytes(r.0@).take(r.1 as int)),
        r.0@.len() == (r.1 + 7) / 8,
{
    let mut bits: Vec<bool> = Vec::new();
    let ghost mut codes: Seq<Seq<bool>> = Seq::empty();
    let ghost mut k: int = 0;
    let mut it = text.chars();
    loop
        invariant
            0 <= k <= text@.len(),
            it.remaining() == text@.skip(k),
            it.decrease() is Some,
            codes.len() == k,
            bits@ == codes.flatten(),
            forall|j: int| 0 <= j < k ==> code_for(root, #[trigger] codes[j], text@[j]) && codes[j].len() > 0,
            root matches Some(n) && !is_leaf_node(*n),
            forall|i: int| 0 <= i < table@.len() ==> code_for(root, (#[trigger] table@[i]).1@, table@[i].0),
            forall|c: char| text@.contains(c) ==> exists|i: int| 0 <= i < table@.len() && (#[trigger] table@[i]).0 == c,
        ensures
            codes.len() == text@.len(),
            bits@ == codes.flatten(),
            forall|j: int| 0 <= j < text@.len() ==> code_for(root, #[trigger] codes[j], text@[j]) && codes[j].len() > 0,
        decreases it.decrease()->0,
    {
        let ghost before = it.remaining();
        match it.next() {
            None => {
                proof {
                    assert(text@.skip(k).len() == 0);
                }
                break;
            },
            Some(c) => {
                proof {
                    assert(before[0] == c);
                    assert(text@[k] == c);
                    assert(text@.contains(c));
                    assert(it.remaining() =~= text@.skip(k + 1));
                }
                let i = find_code(table, c);
                let code = &table[i].1;
                let ghost b0 = bits@;
                let mut m: usize = 0;
                while m < code.len()
                    invariant
                        m <= code@.len(),
                        bits@ == b0 + code@.take(m as int),
                    decreases code@.len() - m,
                {
                    bits.push(code[m]);
                    proof {
                        assert(bits@ =~= b0 + code@.take(m + 1));
                    }
                    m = m + 1;
                }
                proof {
                    assert(code@.take(code@.len() as int) =~= code@);
                    codes.lemma_flatten_push(code@);
                    assert(code@.len() > 0) by {
                        if code@.len() == 0 {
                            assert(follow(root, code@) == root);
                        }
                    }
                    codes = codes.push(code@);
                    k = k + 1;
                }
            },
        }
    }
    let mut w = new_bit_writer();
    let mut m: usize = 0;
    while m < bits.len()
        invariant
            m <= bits@.len(),
            written_bits(w) == bits@.take(m as int),
        decreases bits@.len() - m,
    {
        write_bit(&mut w, bits[m]);
        proof {
            assert(written_bits(w) =~= bits@.take(m + 1));
        }
        m = m + 1;
    }
    proof {
        assert(bits@.take(bits@.len() as int) =~= bits@);
        lemma_padded(bits@);
    }
    byte_align(&mut w);
    let len = bits.len();
    let bytes = into_bytes(w);
    proof {
        let pb = padded(bits@);
        assert(pb.take((pb.len() / 8 * 8) as int) =~= pb);
        assert(bits_of_bytes(bytes@) == pb);
        assert(pb.take(len as int) == bits@);
        lemma_walk_text(root, codes, text@);
        assert(bits_of_bytes(bytes@).take(len as int) == codes.flatten());
        assert(encodes(root, text@, bits_of_bytes(bytes@).take(len as int)));
        lemma_byte_count(len as int, bytes@.len() as int);
    }
    (bytes, len)
}

/// A copy of a byte vector.
fn copy_bytes(v: &Vec<u8>) -> (r: Vec<u8>)
    ensures
        r@ == v@,
{
    let mut r: Vec<u8> = Vec::new();
    let mut i: usize = 0;
    while i < v.len()
        invariant
            i <= v@.len(),
            r@ == v@.take(i as int),
        decreases v@.len() - i,
    {
        r.push(v[i]);
        proof {
            assert(r@ =~= v@.take(i + 1));
        }
        i = i + 1;
    }
    proof {
        assert(r@ =~= v@);
    }
    r
}

/// Decodes the first `len` bits of `encoded` by walking `tree`.
fn decode_bits(tree: &LinkedBinaryTree<HuffmanChar>, encoded: &Vec<u8>, len: usize) -> (s: String)
    requires
        len <= bits_of_bytes(encoded@).len(),
    ensures
        s@ == walk(tree.root, tree.root, bits_of_bytes(encoded@).take(len as int)),
{
    let ghost all = bits_of_bytes(encoded@);
    let ghost b = all.take(len as int);
    let mut reader = new_bit_reader(copy_bytes(encoded));
    let mut decoded = String::new();
    let mut cur: &Option<Box<Node<HuffmanChar>>> = &tree.root;
    let mut i: usize = 0;
    proof {
        assert(b.skip(0) =~= b);
        assert(all.skip(0) =~= all);
    }
    while i < len
        invariant
            i <= len,
            len <= all.len(),
            b == all.take(len as int),
            unread_bits(reader) == all.skip(i as int),
            walk(tree.root, tree.root, b) == decoded@ + walk(tree.root, *cur, b.skip(i as int)),
        decreases len - i,
    {
        let ghost rest = b.skip(i as int);
        let bit = match read_bit(&mut reader) {
            Some(x) => x,
            None => {
                proof {
                    assert(all.skip(i as int).len() > 0);
                }
                false
            },
        };
        proof {
            assert(bit == rest[0]);
            assert(rest.drop_first() =~= b.skip(i + 1));
            assert(unread_bits(reader) =~= all.skip(i + 1));
        }
        match cur {
            Some(n) => {
                let next = if bit {
                    &n.left
                } else {
                    &n.right
                };
                match next {
                    Some(m) => {
                        if m.left.is_none() && m.right.is_none() {
                            match m.elem.ch {
                                Some(c) => {
                                    push_char(&mut decoded, c);
                                },
                                None => {},
                            }
                            cur = &tree.root;
                        } else {
                            cur = next;
                        }
                    },
                    None => {
                        cur = next;
                    },
                }
            },
            None => {},
        }
        i = i + 1;
    }
    proof {
        assert(b.skip(len as int) =~= Seq::<bool>::empty());
        assert(decoded@ + Seq::<char>::empty() =~= decoded@);
    }
    decoded
}

/// A Huffman coding tree built for a text, with the text encoded by it.
pub struct HuffmanCodingTree {
    tree: LinkedBinaryTree<HuffmanChar>,
    encoded: Vec<u8>,
    len: usize,
    text: Ghost<Seq<char>>,
}

impl HuffmanCodingTree {
    /// The text encoded.
    pub closed spec fn spec_text(&self) -> Seq<char> {
        self.text@
    }

    /// The bytes of the encoded text.
    pub closed spec fn spec_encoded(&self) -> Seq<u8> {
        self.encoded@
    }

    /// The number of bits of the encoded text.
    pub closed spec fn spec_len(&self) -> int {
        self.len as int
    }

    /// The tree is a coding tree with at least two leaves, and walking it along the first
    /// `len` encoded bits gives back the text.
    pub closed spec fn wf(&self) -> bool {
        &&& coding_shape(self.tree.root)
        &&& self.tree.root matches Some(n) && !is_leaf_node(*n)
        &&& self.len <= bits_of_bytes(self.encoded@).len()
        &&& walk(self.tree.root, self.tree.root, bits_of_bytes(self.encoded@).take(self.len as int)) == self.text@
        &&& encodes(self.tree.root, self.text@, bits_of_bytes(self.encoded@).take(self.len as int))
        &&& bits_of_bytes(self.encoded@) == padded(bits_of_bytes(self.encoded@).take(self.len as int))
        &&& self.encoded@.len() == (self.len + 7) / 8
        &&& tree_cost(self.tree.root) == huffman_cost(char_counts(self.text@))
        &&& self.len == tree_cost(self.tree.root)
    }

    /// The coding tree.
    pub closed spec fn spec_root(&self) -> Option<Box<Node<HuffmanChar>>> {
        self.tree.root
    }

    /// Builds the coding tree of `text` from its character counts and encodes `text` with
    /// it; `None` for an empty text. A text of one repeated character has no coding tree of
    /// two leaves and is not accepted.
    pub fn new(text: &str) -> (r: Option<Self>)
        requires
            text@.len() == 0 || exists|i: int, j: int| 0 <= i < text@.len() && 0 <= j < text@.len() && text@[i] != text@[j],
        ensures
            text@.len() == 0 <==> r is None,
            r matches Some(t) ==> t.wf() && t.spec_text() == text@,
            r matches Some(t) ==> tree_cost(t.spec_root()) == huffman_cost(char_counts(text@)),
            r matches Some(t) ==> t.spec_len() == huffman_cost(char_counts(text@)),
    {
        let table = char_count(text);
        if table.len() == 0 {
            proof {
                if text@.len() > 0 {
                    assert(text@.contains(text@[0]));
                }
            }
            return None;
        }
        if table.len() < 2 {
            proof {
                if text@.len() == 0 {
                    assert(!text@.contains(table@[0].0));
                }
                let (a, b): (int, int) = choose|i: int, j: int| 0 <= i < text@.len() && 0 <= j < text@.len() && text@[i] != text@[j];
                assert(text@.contains(text@[a]));
                assert(text@.contains(text@[b]));
                assert(false);
            }
            return None;
        }
        let tree = build_tree(&table, Ghost(text@));
        proof {
            lemma_char_counts(table@, text@);
        }
        let mut prefix: Vec<bool> = Vec::new();
        let mut codes: Vec<(char, Vec<bool>)> = Vec::new();
        collect_codes(&tree.root, &mut prefix, &mut codes);
        proof {
            assert forall|i: int| 0 <= i < codes@.len() implies code_for(tree.root, (#[trigger] codes@[i]).1@, codes@[i].0) by {
                assert(codes@[i].1@.skip(0) =~= codes@[i].1@);
            }
            assert forall|c: char| text@.contains(c) implies exists|i: int| 0 <= i < codes@.len() && (#[trigger] codes@[i]).0 == c by {
                assert(has_leaf(tree.root, c));
            }
        }
        let (encoded, len) = encode(text, &codes, Ghost(tree.root));
        proof {
            let b = bits_of_bytes(encoded@).take(len as int);
            let cs = choose|cs: Seq<Seq<bool>>|
                #![trigger cs.flatten()]
                cs.len() == text@.len() && cs.flatten() == b && forall|j: int|
                    0 <= j < cs.len() ==> code_for(tree.root, #[trigger] cs[j], text@[j]);
            lemma_codes_len(tree.root, cs, text@);
            lemma_cost_depths(tree.root, text@);
            assert(len == tree_cost(tree.root));
            if text@.len() == 0 {
                assert(table@.len() == 0) by {
                    assert(!text@.contains(table@[0].0));
                }
            }
        }
        Some(HuffmanCodingTree { tree, encoded, len, text: Ghost(text@) })
    }

    /// The encoded text: its bytes and the number of bits that carry the code.
    pub fn encoded(&self) -> (r: (&Vec<u8>, usize))
        ensures
            r.0@ == self.spec_encoded(),
            r.1 == self.spec_len(),
            self.wf() ==> r.0@.len() == (r.1 + 7) / 8,
            self.wf() ==> bits_of_bytes(r.0@) == padded(bits_of_bytes(r.0@).take(r.1 as int)),
            self.wf() ==> encodes(self.spec_root(), self.spec_text(), bits_of_bytes(r.0@).take(r.1 as int)),
            self.wf() ==> r.1 == huffman_cost(char_counts(self.spec_text())),
    {
        (&self.encoded, self.len)
    }

    /// The text decoded from the encoded bits by walking the coding tree.
    pub fn decode(&self) -> (s: String)
        requires
            self.wf(),
        ensures
            s@ == self.spec_text(),
    {
        decode_bits(&self.tree, &self.encoded, self.len)
    }
}

} // verus!
