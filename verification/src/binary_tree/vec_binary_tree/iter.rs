//! Level-order positions of the nodes of a subtree stored in a vector.

use vstd::prelude::*;
use vstd::arithmetic::power2::pow2;
use super::VecBinaryTree;

verus! {

/// The greatest power of two not above `n`, and `1` for `n <= 1`.
pub open spec fn pow2_floor(n: nat) -> nat
    decreases n,
{
    if n <= 1 {
        1
    } else {
        2 * pow2_floor(n / 2)
    }
}

/// Position in the vector of the node with level-order number `index` (the root is `0`)
/// in the subtree rooted at position `base`.
pub open spec fn level_index(base: int, index: int) -> int {
    index + base * pow2_floor((index + 1) as nat)
}

/// `pow2_floor` is a power of two no greater than its argument, and it grows with it.
pub proof fn lemma_pow2_floor(n: nat)
    ensures
        pow2_floor(n) >= 1,
        n >= 1 ==> pow2_floor(n) <= n,
        n >= 1 ==> n < 2 * pow2_floor(n),
        forall|m: nat| m <= n ==> #[trigger] pow2_floor(m) <= pow2_floor(n),
    decreases n,
{
    if n > 1 {
        lemma_pow2_floor(n / 2);
        assert forall|m: nat| m <= n implies #[trigger] pow2_floor(m) <= pow2_floor(n) by {
            if m > 1 {
                assert(m / 2 <= n / 2);
                assert(pow2_floor(m / 2) <= pow2_floor(n / 2));
            }
        }
    } else {
        assert forall|m: nat| m <= n implies #[trigger] pow2_floor(m) <= pow2_floor(n) by {
        }
    }
}

/// The position reached from position `base` by the binary digits of `m` after its
/// leading `1`, read from the most significant: `0` leads to the left child `2 i + 1`, `1`
/// to the right child `2 i + 2`. The node numbered `k` in level order within a subtree is
/// reached so by the digits of `k + 1`.
pub open spec fn path_pos(base: int, m: nat) -> int
    decreases m,
{
    if m <= 1 {
        base
    } else {
        2 * path_pos(base, m / 2) + 1 + (m % 2) as int
    }
}

/// `pow2_floor` gives a power of two, and for `n >= 1` the one with `n` between it and its
/// double: the greatest power of two not above `n`.
pub proof fn lemma_pow2_floor_is_power(n: nat)
    ensures
        exists|e: nat| pow2_floor(n) == #[trigger] pow2(e),
        n >= 1 ==> pow2_floor(n) <= n < 2 * pow2_floor(n),
        forall|e: nat| #[trigger] pow2(e) <= n ==> pow2(e) <= pow2_floor(n),
    decreases n,
{
    lemma_pow2_floor(n);
    if n <= 1 {
        vstd::arithmetic::power2::lemma_pow2(0);
        vstd::arithmetic::power::lemma_pow0(2);
        assert(pow2_floor(n) == pow2(0));
        assert forall|e: nat| #[trigger] pow2(e) <= n implies pow2(e) <= pow2_floor(n) by {
            if e > 0 {
                vstd::arithmetic::power2::lemma_pow2_unfold(e);
                vstd::arithmetic::power2::lemma_pow2_pos((e - 1) as nat);
            }
        }
    } else {
        lemma_pow2_floor_is_power(n / 2);
        let e0 = choose|e: nat| pow2_floor(n / 2) == #[trigger] pow2(e);
        vstd::arithmetic::power2::lemma_pow2_unfold(e0 + 1);
        assert(pow2_floor(n) == pow2(e0 + 1));
        assert forall|e: nat| #[trigger] pow2(e) <= n implies pow2(e) <= pow2_floor(n) by {
            if e > 0 {
                vstd::arithmetic::power2::lemma_pow2_unfold(e);
                assert(pow2((e - 1) as nat) <= n / 2);
                assert(pow2((e - 1) as nat) <= pow2_floor(n / 2));
            } else {
                vstd::arithmetic::power2::lemma_pow2(0);
                vstd::arithmetic::power::lemma_pow0(2);
            }
        }
    }
}

/// The node numbered `index` in level order within the subtree rooted at `base` is the one
/// reached from `base` by the binary digits of `index + 1` after the leading one.
pub proof fn lemma_level_index_path(base: int, index: int)
    requires
        base >= 0,
        index >= 0,
    ensures
        level_index(base, index) == path_pos(base, (index + 1) as nat),
{
    lemma_path_pos((index + 1) as nat, base);
}

/// Numbering in level order within a subtree follows the children: the children of the
/// node numbered `j` are numbered `2 j + 1` and `2 j + 2`, as in the whole tree.
pub proof fn lemma_level_index_children(base: int, j: int)
    requires
        base >= 0,
        j >= 0,
    ensures
        level_index(base, 2 * j + 1) == 2 * level_index(base, j) + 1,
        level_index(base, 2 * j + 2) == 2 * level_index(base, j) + 2,
        level_index(base, 0) == base,
{
    lemma_level_index_path(base, j);
    lemma_level_index_path(base, 2 * j + 1);
    lemma_level_index_path(base, 2 * j + 2);
    lemma_level_index_path(base, 0);
    let m = (j + 1) as nat;
    assert((2 * m) / 2 == m && (2 * m) % 2 == 0);
    assert((2 * m + 1) / 2 == m && (2 * m + 1) % 2 == 1);
    assert(path_pos(base, 2 * m) == 2 * path_pos(base, m) + 1);
    assert(path_pos(base, 2 * m + 1) == 2 * path_pos(base, m) + 2);
}

/// `path_pos(base, m)` is `m - 1` past `base` times the greatest power of two not above `m`.
proof fn lemma_path_pos(m: nat, base: int)
    requires
        m >= 1,
    ensures
        path_pos(base, m) == m - 1 + base * pow2_floor(m),
    decreases m,
{
    if m > 1 {
        lemma_path_pos(m / 2, base);
        let q = pow2_floor(m / 2);
        assert(path_pos(base, m) == 2 * path_pos(base, m / 2) + 1 + (m % 2) as int);
        assert(m == 2 * (m / 2) + m % 2);
        assert(pow2_floor(m) == 2 * q);
        assert(2 * (base * q) == base * (2 * q)) by (nonlinear_arith);
        assert(path_pos(base, m) == m - 1 + 2 * (base * q));
    } else {
        assert(pow2_floor(m) == 1);
        assert(base * pow2_floor(m) == base) by (nonlinear_arith)
            requires
                pow2_floor(m) == 1,
        ;
    }
}

/// Level-order numbering within a subtree never goes backwards: later numbers sit at
/// later positions of the vector.
pub proof fn lemma_level_index_monotone(base: int, i: int, j: int)
    requires
        base >= 0,
        0 <= i < j,
    ensures
        level_index(base, i) < level_index(base, j),
        level_index(base, i) >= i,
{
    lemma_pow2_floor((j + 1) as nat);
    let pi = pow2_floor((i + 1) as nat);
    let pj = pow2_floor((j + 1) as nat);
    assert(pi <= pj);
    assert(base * pi <= base * pj) by (nonlinear_arith)
        requires
            base >= 0,
            pi <= pj,
    ;
    assert(base * pi >= 0) by (nonlinear_arith)
        requires
            base >= 0,
            pi >= 0,
    ;
}

/// Within the subtree rooted at `0`, level-order numbers are the positions themselves.
pub proof fn lemma_level_index_zero(i: int)
    requires
        i >= 0,
    ensures
        level_index(0, i) == i,
{
}

/// One step of the numbering at most doubles the position.
pub proof fn lemma_level_index_step(base: int, i: int)
    requires
        base >= 0,
        i >= 0,
    ensures
        level_index(base, i + 1) <= 2 * level_index(base, i) + 1,
        level_index(base, i) >= base,
{
    lemma_pow2_floor((i + 2) as nat);
    lemma_pow2_floor((i + 1) as nat);
    let p1 = pow2_floor((i + 1) as nat);
    let p2 = pow2_floor((i + 2) as nat);
    assert(p2 <= 2 * p1) by {
        lemma_pow2_le_double((i + 1) as nat);
    }
    assert(base * p2 <= 2 * (base * p1)) by (nonlinear_arith)
        requires
            base >= 0,
            p2 <= 2 * p1,
    ;
    assert(base * p1 >= base) by (nonlinear_arith)
        requires
            base >= 0,
            p1 >= 1,
    ;
}

proof fn lemma_pow2_le_double(n: nat)
    ensures
        pow2_floor(n + 1) <= 2 * pow2_floor(n),
    decreases n,
{
    lemma_pow2_floor(n);
    lemma_pow2_floor(n + 1);
    if n >= 1 {
        assert(n + 1 < 2 * pow2_floor(n + 1));
        // pow2_floor(n + 1) <= n + 1 <= 2 * n, and values are powers of two
        lemma_pow2_double_bound(n);
    }
}

proof fn lemma_pow2_double_bound(n: nat)
    requires
        n >= 1,
    ensures
        pow2_floor(n + 1) <= 2 * pow2_floor(n),
    decreases n,
{
    if n == 1 {
    } else if n + 1 <= 1 {
    } else {
        if n / 2 >= 1 {
            if (n + 1) / 2 == n / 2 {
            } else {
                assert((n + 1) / 2 == n / 2 + 1);
                lemma_pow2_double_bound(n / 2);
            }
        }
    }
}

/// The greatest power of two not above `n` (and `1` when `n <= 1`).
pub fn round_down_to_power_of_two(n: usize) -> (r: usize)
    ensures
        r == pow2_floor(n as nat),
        exists|e: nat| r == #[trigger] pow2(e),
        n >= 1 ==> r <= n < 2 * r,
    decreases n,
{
    proof {
        lemma_pow2_floor(n as nat);
        lemma_pow2_floor_is_power(n as nat);
    }
    if n <= 1 {
        1
    } else {
        let half = round_down_to_power_of_two(n / 2);
        proof {
            lemma_pow2_floor((n / 2) as nat);
        }
        2 * half
    }
}

/// Position in the vector of the node numbered `index` in level order within the
/// subtree rooted at `base`.
pub fn in_order_index(base: usize, index: usize) -> (r: usize)
    requires
        index < usize::MAX,
        level_index(base as int, index as int) <= usize::MAX,
    ensures
        r == level_index(base as int, index as int),
        r == path_pos(base as int, (index + 1) as nat),
{
    proof {
        lemma_level_index_path(base as int, index as int);
    }
    let pow = round_down_to_power_of_two(index + 1);
    proof {
        lemma_pow2_floor((index + 1) as nat);
        assert(base * pow >= 0) by (nonlinear_arith)
            requires
                base >= 0,
                pow >= 0,
        ;
    }
    index + base * pow
}

/// Walks the positions of a subtree in level order, stopping at the first position past
/// `limit`.
pub struct InOrderIndexIter {
    base: usize,
    index: usize,
    limit: usize,
}

impl InOrderIndexIter {
    /// The level-order number of the next position to visit.
    pub closed spec fn spec_index(&self) -> nat {
        self.index as nat
    }

    /// The root position of the subtree.
    pub closed spec fn spec_base(&self) -> nat {
        self.base as nat
    }

    /// The position bound.
    pub closed spec fn spec_limit(&self) -> nat {
        self.limit as nat
    }

    /// The bounds under which the walk cannot overflow, and every visited position lies
    /// before the limit.
    pub closed spec fn wf(&self) -> bool {
        &&& self.base <= usize::MAX / 2
        &&& self.limit <= usize::MAX / 4
        &&& self.index > 0 ==> level_index(self.base as int, self.index - 1) < self.limit
    }

    /// Starts a walk of the subtree rooted at `current` within the first `limit` positions.
    pub fn new(current: usize, limit: usize) -> (it: Self)
        requires
            current <= usize::MAX / 2,
            limit <= usize::MAX / 4,
        ensures
            it.wf(),
            it.spec_index() == 0,
            it.spec_base() == current,
            it.spec_limit() == limit,
    {
        InOrderIndexIter { base: current, index: 0, limit }
    }

    /// Returns the next position of the walk, or `None` once it passes the limit.
    pub fn next(&mut self) -> (r: Option<usize>)
        requires
            old(self).wf(),
        ensures
            final(self).wf(),
            final(self).spec_base() == old(self).spec_base(),
            final(self).spec_limit() == old(self).spec_limit(),
            level_index(old(self).spec_base() as int, old(self).spec_index() as int) < old(self).spec_limit() ==> r
                == Some(level_index(old(self).spec_base() as int, old(self).spec_index() as int) as usize)
                && final(self).spec_index() == old(self).spec_index() + 1,
            level_index(old(self).spec_base() as int, old(self).spec_index() as int) >= old(self).spec_limit() ==> r
                is None && final(self).spec_index() == old(self).spec_index(),
    {
        proof {
            if self.index > 0 {
                let i = self.index - 1;
                lemma_level_index_step(self.base as int, i);
                lemma_level_index_monotone(self.base as int, i, i + 1);
                assert(i + 1 == self.index);
                assert(level_index(self.base as int, i + 1) <= usize::MAX);
            } else {
                lemma_pow2_floor(1);
                assert(pow2_floor(1) == 1);
                let b = self.base as int;
                assert(b * pow2_floor(1) == b) by (nonlinear_arith)
                    requires
                        pow2_floor(1) == 1,
                ;
                assert(level_index(b, 0) == b);
            }
        }
        let idx = in_order_index(self.base, self.index);
        if idx < self.limit {
            self.index = self.index + 1;
            Some(idx)
        } else {
            None
        }
    }
}

/// Walks the values of a subtree of a vector tree in level order.
pub struct InOrderIter<'a, T> {
    iter: InOrderIndexIter,
    tree: &'a VecBinaryTree<T>,
}

impl<'a, T> InOrderIter<'a, T> {
    /// The tree walked.
    pub closed spec fn spec_tree(&self) -> &'a VecBinaryTree<T> {
        self.tree
    }

    /// The underlying walk of positions.
    pub closed spec fn spec_iter(&self) -> InOrderIndexIter {
        self.iter
    }

    /// The walk covers the tree's positions.
    pub closed spec fn wf(&self) -> bool {
        &&& self.iter.wf()
        &&& self.iter.limit == self.tree@.len()
    }

    /// Starts a level-order walk of the subtree rooted at position `base`.
    pub fn new(base: usize, tree: &'a VecBinaryTree<T>) -> (it: Self)
        requires
            base <= usize::MAX / 2,
            tree.wf(),
        ensures
            it.wf(),
            it.spec_tree() == tree,
            it.spec_iter().spec_index() == 0,
            it.spec_iter().spec_base() == base,
    {
        InOrderIter { iter: InOrderIndexIter::new(base, tree.inner.len()), tree }
    }

    /// Returns the next value of the walk, skipping empty positions, or `None` at the end.
    pub fn next(&mut self) -> (r: Option<&'a T>)
        requires
            old(self).wf(),
        ensures
            final(self).wf(),
            final(self).spec_tree() == old(self).spec_tree(),
            final(self).spec_iter().spec_base() == old(self).spec_iter().spec_base(),
            final(self).spec_iter().spec_index() >= old(self).spec_iter().spec_index(),
            forall|k: int|
                old(self).spec_iter().spec_index() <= k < final(self).spec_iter().spec_index() ==> #[trigger] level_index(
                    old(self).spec_iter().spec_base() as int,
                    k,
                ) < old(self).spec_tree()@.len(),
            present_values(
                old(self).spec_tree()@,
                old(self).spec_iter().spec_base() as int,
                old(self).spec_iter().spec_index() as int,
                final(self).spec_iter().spec_index() as int,
            ) == (match r {
                Some(x) => seq![*x],
                None => Seq::<T>::empty(),
            }),
            r is None ==> level_index(
                final(self).spec_iter().spec_base() as int,
                final(self).spec_iter().spec_index() as int,
            ) >= old(self).spec_tree()@.len(),
    {
        let ghost start = self.iter.index as int;
        loop
            invariant
                self.iter.wf(),
                self.iter.limit == self.tree@.len(),
                self.tree == old(self).spec_tree(),
                self.iter.base == old(self).spec_iter().spec_base(),
                self.iter.index >= start,
                start == old(self).spec_iter().spec_index(),
                present_values(self.tree@, self.iter.base as int, start, self.iter.index as int) == Seq::<T>::empty(),
                forall|k: int| start <= k < self.iter.index ==> #[trigger] level_index(self.iter.base as int, k) < self.tree@.len(),
            decreases (if level_index(self.iter.base as int, self.iter.index as int) < self.tree@.len() {
                self.tree@.len() - level_index(self.iter.base as int, self.iter.index as int)
            } else {
                0
            }),
        {
            let ghost before = self.iter.index as int;
            proof {
                lemma_level_index_monotone(self.iter.base as int, before, before + 1);
            }
            match self.iter.next() {
                Some(idx) => {
                    match self.tree.get(idx) {
                        Some(elem) => {
                            assert(present_values(self.tree@, self.iter.base as int, start, self.iter.index as int)
                                =~= seq![*elem]);
                            return Some(elem);
                        },
                        None => {
                            assert(present_values(self.tree@, self.iter.base as int, start, self.iter.index as int)
                                =~= Seq::<T>::empty());
                        },
                    }
                },
                None => {
                    return None;
                },
            }
        }
    }
}

/// Values present at the positions numbered `from` up to (not including) `to` in level
/// order within the subtree rooted at `base`.
pub open spec fn present_values<T>(s: Seq<Option<T>>, base: int, from: int, to: int) -> Seq<T>
    decreases to - from,
{
    if to <= from {
        Seq::empty()
    } else {
        let p = level_index(base, to - 1);
        present_values(s, base, from, to - 1) + if 0 <= p < s.len() && s[p] is Some {
            seq![s[p]->0]
        } else {
            Seq::<T>::empty()
        }
    }
}

} // verus!
