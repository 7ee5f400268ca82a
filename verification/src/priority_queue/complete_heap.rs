//! A max-heap stored level by level in a vector.

use vstd::prelude::*;
use vstd::multiset::Multiset;
use super::PriorityQueue;
use crate::vec::{MyVec, lemma_swap_multiset};
use super::{Prioritized, sorted_by_priority, is_max_of};

verus! {

/// Position of the parent of node `i` (for `i > 0`).
pub open spec fn parent_of(i: int) -> int {
    (i - 1) / 2
}

/// Whether every node of `s` before `limit` whose parent is at position `start` or later
/// has a priority no greater than its parent's.
pub open spec fn ordered_from<T: Prioritized>(s: Seq<T>, start: int, limit: int) -> bool {
    forall|i: int|
        0 < i < limit && parent_of(i) >= start ==> #[trigger] s[i].priority() <= s[parent_of(i)].priority()
}

/// Whether the first `limit` elements of `s` form a max-heap.
pub open spec fn is_heap<T: Prioritized>(s: Seq<T>, limit: int) -> bool {
    ordered_from(s, 0, limit)
}

/// The root of a heap has the greatest priority of the heap.
pub proof fn lemma_heap_root_max<T: Prioritized>(s: Seq<T>, limit: int, k: int)
    requires
        is_heap(s, limit),
        limit <= s.len(),
        0 <= k < limit,
    ensures
        s[k].priority() <= s[0].priority(),
    decreases k,
{
    if k > 0 {
        lemma_heap_root_max(s, limit, parent_of(k));
        assert(s[k].priority() <= s[parent_of(k)].priority());
    }
}

/// A max-heap on a complete binary tree laid out level by level.
pub struct CompleteMaxHeap<T> {
    vec: MyVec<T>,
}

impl<T: Prioritized> CompleteMaxHeap<T> {
    /// The elements of the heap in their storage order.
    pub closed spec fn spec_seq(&self) -> Seq<T> {
        self.vec@
    }

    /// The heap order holds for the stored elements.
    pub closed spec fn wf(&self) -> bool {
        is_heap(self.vec@, self.vec@.len() as int)
    }

    /// Index of the left child of node `n`.
    pub fn left(n: usize) -> (r: usize)
        requires
            2 * n + 1 <= usize::MAX,
        ensures
            r == 2 * n + 1,
    {
        2 * n + 1
    }

    /// Index of the right child of node `n`.
    pub fn right(n: usize) -> (r: usize)
        requires
            2 * n + 2 <= usize::MAX,
        ensures
            r == 2 * n + 2,
    {
        2 * n + 2
    }

    /// Index of the parent of node `n`.
    pub fn parent(n: usize) -> (r: usize)
        requires
            n > 0,
        ensures
            r == parent_of(n as int),
    {
        (n - 1) / 2
    }

    /// Creates an empty heap.
    pub fn new() -> (h: Self)
        ensures
            h.spec_seq() == Seq::<T>::empty(),
            h.wf(),
    {
        CompleteMaxHeap { vec: MyVec::new() }
    }

    /// Number of elements in the heap.
    pub fn len(&self) -> (n: usize)
        ensures
            n == self.spec_seq().len(),
    {
        self.vec.len()
    }

    /// Whether the heap is empty.
    pub fn is_empty(&self) -> (b: bool)
        ensures
            b <==> self.spec_seq().len() == 0,
    {
        self.vec.is_empty()
    }

    /// Moves the element at `n` up while it has a greater priority than its parent.
    fn percolate_up(&mut self, n: usize)
        requires
            n < old(self).spec_seq().len(),
            forall|i: int|
                0 < i < old(self).spec_seq().len() && i != n ==> #[trigger] old(self).spec_seq()[i].priority()
                    <= old(self).spec_seq()[parent_of(i)].priority(),
            n > 0 ==> forall|c: int|
                0 < c < old(self).spec_seq().len() && parent_of(c) == n ==> #[trigger] old(self).spec_seq()[c].priority()
                    <= old(self).spec_seq()[parent_of(n as int)].priority(),
        ensures
            final(self).wf(),
            final(self).spec_seq().to_multiset() == old(self).spec_seq().to_multiset(),
            final(self).spec_seq().len() == old(self).spec_seq().len(),
    {
        let mut n = n;
        let ghost len = self.vec@.len();
        while n != 0
            invariant
                self.vec@.len() == len,
                n < len,
                self.vec@.to_multiset() == old(self).spec_seq().to_multiset(),
                forall|i: int| 0 < i < len && i != n ==> #[trigger] self.vec@[i].priority() <= self.vec@[parent_of(i)].priority(),
                n > 0 ==> forall|c: int|
                    0 < c < len && parent_of(c) == n ==> #[trigger] self.vec@[c].priority() <= self.vec@[parent_of(
                        n as int,
                    )].priority(),
            ensures
                forall|i: int| 0 < i < len ==> #[trigger] self.vec@[i].priority() <= self.vec@[parent_of(i)].priority(),
                self.vec@.len() == len,
                self.vec@.to_multiset() == old(self).spec_seq().to_multiset(),
            decreases n,
        {
            let parent = Self::parent(n);
            let pl = self.vec.get(parent);
            let nl = self.vec.get(n);
            let less = match (pl, nl) {
                (Ok(p), Ok(c)) => p.less_than(c),
                _ => false,
            };
            if less {
                let ghost s = self.vec@;
                proof {
                    lemma_swap_multiset(s, n as int, parent as int);
                }
                let _ = self.vec.swap(n, parent);
                let ghost t = self.vec@;
                assert forall|i: int| 0 < i < len && i != parent implies #[trigger] t[i].priority() <= t[parent_of(i)].priority() by {
                    if i == n {
                    } else if parent_of(i) == n {
                        assert(s[i].priority() <= s[n as int].priority());
                    } else if parent_of(i) == parent as int {
                        assert(i != n);
                        if parent > 0 {
                            assert(s[i].priority() <= s[parent_of(parent as int)].priority());
                        }
                        assert(s[i].priority() <= s[parent as int].priority());
                    } else if i == parent as int {
                    } else {
                    }
                }
                if parent > 0 {
                    assert forall|c: int| 0 < c < len && parent_of(c) == parent implies #[trigger] t[c].priority() <= t[parent_of(parent as int)].priority() by {
                        if c == n {
                        } else {
                            assert(s[c].priority() <= s[parent as int].priority());
                        }
                    }
                }
                n = parent;
            } else {
                assert forall|i: int| 0 < i < len implies #[trigger] self.vec@[i].priority() <= self.vec@[parent_of(i)].priority() by {
                    if i == n {
                    }
                }
                break;
            }
        }
    }

    /// Moves the element at `n` down, within the first `limit` elements, while a child
    /// has a greater priority.
    fn percolate_down_with_limit(&mut self, n: usize, limit: usize)
        requires
            limit <= old(self).spec_seq().len(),
            2 * limit + 2 <= usize::MAX,
            forall|i: int|
                0 < i < limit && parent_of(i) >= n && parent_of(i) != n ==> #[trigger] old(self).spec_seq()[i].priority()
                    <= old(self).spec_seq()[parent_of(i)].priority(),
        ensures
            ordered_from(final(self).spec_seq(), n as int, limit as int),
            final(self).spec_seq().to_multiset() == old(self).spec_seq().to_multiset(),
            final(self).spec_seq().len() == old(self).spec_seq().len(),
            forall|k: int| 0 <= k < n || limit <= k < old(self).spec_seq().len() ==> #[trigger] final(self).spec_seq()[k]
                == old(self).spec_seq()[k],
    {
        let start = n;
        let mut n = n;
        let ghost len = self.vec@.len();
        while n < limit
            invariant
                self.vec@.len() == len,
                limit <= len,
                2 * limit + 2 <= usize::MAX,
                start <= n,
                self.vec@.to_multiset() == old(self).spec_seq().to_multiset(),
                forall|k: int| 0 <= k < start || limit <= k < len ==> #[trigger] self.vec@[k] == old(self).spec_seq()[k],
                forall|i: int|
                    0 < i < limit && parent_of(i) >= start && parent_of(i) != n ==> #[trigger] self.vec@[i].priority()
                        <= self.vec@[parent_of(i)].priority(),
                n != start ==> parent_of(n as int) >= start,
                n != start ==> forall|c: int|
                    0 < c < limit && parent_of(c) == n ==> #[trigger] self.vec@[c].priority() <= self.vec@[parent_of(
                        n as int,
                    )].priority(),
            ensures
                self.vec@.len() == len,
                self.vec@.to_multiset() == old(self).spec_seq().to_multiset(),
                forall|k: int| 0 <= k < start || limit <= k < len ==> #[trigger] self.vec@[k] == old(self).spec_seq()[k],
                ordered_from(self.vec@, start as int, limit as int),
            decreases limit - n,
        {
            let mut max = n;
            let left = Self::left(n);
            if left < limit {
                let ml = self.vec.get(max);
                let ll = self.vec.get(left);
                let less = match (ml, ll) {
                    (Ok(a), Ok(b)) => a.less_than(b),
                    _ => false,
                };
                if less {
                    max = left;
                }
            }
            let right = Self::right(n);
            if right < limit {
                let ml = self.vec.get(max);
                let rl = self.vec.get(right);
                let less = match (ml, rl) {
                    (Ok(a), Ok(b)) => a.less_than(b),
                    _ => false,
                };
                if less {
                    max = right;
                }
            }
            let ghost s = self.vec@;
            assert(s[max as int].priority() >= s[n as int].priority());
            assert(left < limit ==> s[max as int].priority() >= s[left as int].priority());
            assert(right < limit ==> s[max as int].priority() >= s[right as int].priority());
            if max != n {
                proof {
                    lemma_swap_multiset(s, max as int, n as int);
                    assert(parent_of(max as int) == n);
                }
                let _ = self.vec.swap(max, n);
                let ghost t = self.vec@;
                assert forall|i: int|
                    0 < i < limit && parent_of(i) >= start && parent_of(i) != max implies #[trigger] t[i].priority()
                        <= t[parent_of(i)].priority() by {
                    if i == max as int {
                    } else if i == n as int {
                        assert(n != start);
                        assert(parent_of(n as int) != max);
                        assert(s[max as int].priority() <= s[parent_of(n as int)].priority());
                    } else if parent_of(i) == n {
                        assert(i == left || i == right);
                    } else {
                    }
                }
                assert forall|c: int| 0 < c < limit && parent_of(c) == max implies #[trigger] t[c].priority() <= t[parent_of(max as int)].priority() by {
                    assert(c != n);
                    assert(parent_of(c) >= start);
                    assert(s[c].priority() <= s[max as int].priority());
                }
                n = max;
            } else {
                assert forall|i: int|
                    0 < i < limit && parent_of(i) >= start implies #[trigger] s[i].priority() <= s[parent_of(i)].priority() by {
                    if parent_of(i) == n {
                        assert(i == left || i == right);
                    }
                }
                break;
            }
        }
    }

    /// Moves the element at `n` down while a child has a greater priority.
    fn percolate_down(&mut self, n: usize)
        requires
            2 * old(self).spec_seq().len() + 2 <= usize::MAX,
            forall|i: int|
                0 < i < old(self).spec_seq().len() && parent_of(i) >= n && parent_of(i) != n
                    ==> #[trigger] old(self).spec_seq()[i].priority() <= old(self).spec_seq()[parent_of(i)].priority(),
        ensures
            ordered_from(final(self).spec_seq(), n as int, old(self).spec_seq().len() as int),
            final(self).spec_seq().to_multiset() == old(self).spec_seq().to_multiset(),
            final(self).spec_seq().len() == old(self).spec_seq().len(),
            forall|k: int| 0 <= k < n ==> #[trigger] final(self).spec_seq()[k] == old(self).spec_seq()[k],
    {
        let len = self.vec.len();
        self.percolate_down_with_limit(n, len);
    }

    /// Inserts a new element.
    pub fn insert(&mut self, elem: T)
        requires
            old(self).wf(),
            old(self).spec_seq().len() < usize::MAX,
        ensures
            final(self).wf(),
            final(self).spec_seq().to_multiset() == old(self).spec_seq().to_multiset().insert(elem),
            final(self).spec_seq().len() == old(self).spec_seq().len() + 1,
    {
        proof {
            broadcast use vstd::seq_lib::to_multiset_build;
        }
        self.vec.push(elem);
        let last = self.vec.len() - 1;
        assert forall|c: int| 0 < c < self.vec@.len() && parent_of(c) == last implies #[trigger] self.vec@[c].priority() <= self.vec@[parent_of(last as int)].priority() by {
            assert(c > last);
        }
        self.percolate_up(last);
    }

    /// Removes and returns an element of greatest priority, or `None` when the heap is empty.
    pub fn delete_max(&mut self) -> (r: Option<T>)
        requires
            old(self).wf(),
            2 * old(self).spec_seq().len() + 2 <= usize::MAX,
        ensures
            final(self).wf(),
            old(self).spec_seq().len() == 0 ==> r is None && final(self).spec_seq() == old(self).spec_seq(),
            old(self).spec_seq().len() > 0 ==> r is Some
                && is_max_of(r->0, old(self).spec_seq())
                && final(self).spec_seq().to_multiset().insert(r->0) == old(self).spec_seq().to_multiset()
                && final(self).spec_seq().len() + 1 == old(self).spec_seq().len(),
    {
        if self.vec.is_empty() {
            None
        } else {
            let ghost s0 = self.vec@;
            proof {
                assert forall|k: int| 0 <= k < s0.len() implies #[trigger] s0[k].priority() <= s0[0].priority() by {
                    lemma_heap_root_max(s0, s0.len() as int, k);
                }
            }
            let last = self.vec.len() - 1;
            proof {
                lemma_swap_multiset(s0, 0, last as int);
            }
            let _ = self.vec.swap(0, last);
            let ghost s1 = self.vec@;
            let elem = self.vec.pop();
            proof {
                broadcast use vstd::seq_lib::to_multiset_build;
                assert(s1 =~= self.vec@.push(s1.last()));
                assert(s1[last as int] == s0[0]);
            }
            let ghost s2 = self.vec@;
            assert forall|i: int| 0 < i < s2.len() && parent_of(i) >= 0 && parent_of(i) != 0 implies #[trigger] s2[i].priority() <= s2[parent_of(i)].priority() by {
                assert(s2[i] == s0[i]);
                assert(s2[parent_of(i)] == s0[parent_of(i)]);
            }
            self.percolate_down(0);
            elem
        }
    }

    /// A reference to an element of greatest priority, or `None` when the heap is empty.
    pub fn get_max(&self) -> (r: Option<&T>)
        requires
            self.wf(),
        ensures
            self.spec_seq().len() == 0 ==> r is None,
            self.spec_seq().len() > 0 ==> r == Some(&self.spec_seq()[0]) && is_max_of(self.spec_seq()[0], self.spec_seq()),
    {
        proof {
            assert forall|k: int| 0 <= k < self.vec@.len() implies #[trigger] self.vec@[k].priority() <= self.vec@[0].priority() by {
                lemma_heap_root_max(self.vec@, self.vec@.len() as int, k);
            }
        }
        match self.vec.get(0) {
            Ok(x) => Some(x),
            Err(_) => None,
        }
    }

    /// Builds a heap from the elements of `vec`.
    pub fn from(vec: MyVec<T>) -> (h: Self)
        requires
            2 * vec@.len() + 2 <= usize::MAX,
        ensures
            h.wf(),
            h.spec_seq().to_multiset() == vec@.to_multiset(),
            h.spec_seq().len() == vec@.len(),
    {
        let mut heap = CompleteMaxHeap { vec };
        let len = heap.vec.len();
        if len > 1 {
            let last = len - 1;
            let mut idx = Self::parent(last) + 1;
            while idx > 0
                invariant
                    heap.vec@.len() == len,
                    len > 1,
                    2 * len + 2 <= usize::MAX,
                    idx <= parent_of(len - 1) + 1,
                    heap.vec@.to_multiset() == vec@.to_multiset(),
                    ordered_from(heap.vec@, idx as int, len as int),
                decreases idx,
            {
                idx = idx - 1;
                assert forall|i: int|
                    0 < i < len && parent_of(i) >= idx && parent_of(i) != idx implies #[trigger] heap.vec@[i].priority()
                        <= heap.vec@[parent_of(i)].priority() by {
                }
                heap.percolate_down(idx);
            }
            assert(is_heap(heap.vec@, len as int));
        }
        heap
    }

    /// Sorts the elements of `vec` by ascending priority, with heap sort.
    #[verifier::rlimit(40)]
    pub fn sort(vec: MyVec<T>) -> (r: MyVec<T>)
        requires
            2 * vec@.len() + 2 <= usize::MAX,
        ensures
            sorted_by_priority(r@),
            r@.to_multiset() == vec@.to_multiset(),
            r@.len() == vec@.len(),
    {
        let mut heap = Self::from(vec);
        let len = heap.vec.len();
        let mut idx = len;
        while idx > 0
            invariant
                heap.vec@.len() == len,
                2 * len + 2 <= usize::MAX,
                idx <= len,
                heap.vec@.to_multiset() == vec@.to_multiset(),
                is_heap(heap.vec@, idx as int),
                forall|i: int, j: int| idx <= i <= j < len ==> heap.vec@[i].priority() <= heap.vec@[j].priority(),
                forall|i: int, j: int| 0 <= i < idx <= j < len ==> heap.vec@[i].priority() <= heap.vec@[j].priority(),
            decreases idx,
        {
            idx = idx - 1;
            let ghost s0 = heap.vec@;
            proof {
                assert forall|k: int| 0 <= k <= idx implies #[trigger] s0[k].priority() <= s0[0].priority() by {
                    lemma_heap_root_max(s0, idx + 1, k);
                }
                lemma_swap_multiset(s0, 0, idx as int);
            }
            let _ = heap.vec.swap(0, idx);
            let ghost s1 = heap.vec@;
            assert forall|i: int|
                0 < i < idx && parent_of(i) >= 0 && parent_of(i) != 0 implies #[trigger] s1[i].priority()
                    <= s1[parent_of(i)].priority() by {
                assert(s1[i] == s0[i]);
                assert(s1[parent_of(i)] == s0[parent_of(i)]);
            }
            heap.percolate_down_with_limit(0, idx);
            let ghost s2 = heap.vec@;
            assert forall|i: int, j: int| idx <= i <= j < len implies s2[i].priority() <= s2[j].priority() by {
                assert(s2[i] == s1[i]);
                assert(s2[j] == s1[j]);
            }
            assert forall|i: int, j: int| 0 <= i < idx <= j < len implies s2[i].priority() <= s2[j].priority() by {
                assert(s2[j] == s1[j]);
                assert(s2.to_multiset().count(s2[i]) > 0) by {
                    vstd::seq_lib::to_multiset_contains(s2, s2[i]);
                    assert(s2.contains(s2[i]));
                };
                // the element at i is one of the first idx elements of s1
                lemma_prefix_preserved(s1, s2, idx as int, i);
            }
        }
        heap.vec
    }
}

/// When two sequences agree from `limit` on and have the same multiset, every element
/// of the second's prefix occurs in the first's prefix.
proof fn lemma_prefix_preserved<T>(s1: Seq<T>, s2: Seq<T>, limit: int, i: int)
    requires
        s1.len() == s2.len(),
        0 <= i < limit <= s1.len(),
        s1.to_multiset() == s2.to_multiset(),
        forall|k: int| limit <= k < s1.len() ==> #[trigger] s1[k] == s2[k],
    ensures
        exists|k: int| 0 <= k < limit && s1[k] == s2[i],
{
    broadcast use vstd::seq_lib::group_to_multiset_ensures;
    let p1 = s1.take(limit);
    let p2 = s2.take(limit);
    assert(s1 =~= p1 + s1.skip(limit));
    assert(s2 =~= p2 + s2.skip(limit));
    assert(s1.skip(limit) =~= s2.skip(limit));
    vstd::seq_lib::lemma_multiset_commutative(p1, s1.skip(limit));
    vstd::seq_lib::lemma_multiset_commutative(p2, s2.skip(limit));
    let r = s1.skip(limit);
    assert((p1 + r).to_multiset() == (p2 + r).to_multiset());
    assert forall|x: T| p1.to_multiset().count(x) == p2.to_multiset().count(x) by {
        assert((p1 + r).to_multiset().count(x) == p1.to_multiset().count(x) + r.to_multiset().count(x));
        assert((p2 + r).to_multiset().count(x) == p2.to_multiset().count(x) + r.to_multiset().count(x));
    }
    assert(p1.to_multiset() =~= p2.to_multiset());
    assert(p2[i] == s2[i]);
    assert(p2.contains(s2[i]));
    vstd::seq_lib::to_multiset_contains(p2, s2[i]);
    vstd::seq_lib::to_multiset_contains(p1, s2[i]);
    let k = choose|k: int| 0 <= k < p1.len() && p1[k] == s2[i];
    assert(s1[k] == s2[i]);
}

impl<T: Prioritized> Default for CompleteMaxHeap<T> {
    fn default() -> (h: Self)
        ensures
            h.spec_seq() == Seq::<T>::empty(),
            h.wf(),
    {
        CompleteMaxHeap::new()
    }
}

impl<T: Prioritized> PriorityQueue<T> for CompleteMaxHeap<T> {
    closed spec fn items(&self) -> Multiset<T> {
        self.spec_seq().to_multiset()
    }

    closed spec fn inv(&self) -> bool {
        self.wf()
    }

    closed spec fn has_room(&self) -> bool {
        2 * self.spec_seq().len() + 2 <= usize::MAX
    }

    fn len(&self) -> (n: usize) {
        proof {
            broadcast use vstd::seq_lib::group_to_multiset_ensures;
        }
        CompleteMaxHeap::len(self)
    }

    fn delete_max(&mut self) -> (r: Option<T>) {
        proof {
            broadcast use vstd::seq_lib::group_to_multiset_ensures;
        }
        let ghost s0 = self.spec_seq();
        let r = CompleteMaxHeap::delete_max(self);
        proof {
            if s0.len() > 0 {
                let x = r->0;
                let m1 = self.spec_seq().to_multiset();
                assert(s0.to_multiset() == m1.insert(x));
                assert(s0.to_multiset().contains(x));
                assert(m1.insert(x).remove(x) =~= m1);
                assert forall|y: T| #[trigger] s0.to_multiset().contains(y) implies y.priority() <= x.priority() by {
                    assert(s0.contains(y));
                    let k = choose|k: int| 0 <= k < s0.len() && s0[k] == y;
                }
            }
        }
        r
    }

    fn get_max(&self) -> (r: Option<&T>) {
        proof {
            broadcast use vstd::seq_lib::group_to_multiset_ensures;
        }
        let r = CompleteMaxHeap::get_max(self);
        proof {
            let s0 = self.spec_seq();
            if s0.len() > 0 {
                assert(s0.contains(s0[0]));
                assert forall|y: T| #[trigger] s0.to_multiset().contains(y) implies y.priority() <= s0[0].priority() by {
                    assert(s0.contains(y));
                    let k = choose|k: int| 0 <= k < s0.len() && s0[k] == y;
                }
            }
        }
        r
    }

    fn insert(&mut self, elem: T) {
        CompleteMaxHeap::insert(self, elem)
    }
}

} // verus!
