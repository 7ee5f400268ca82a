//! A leftist max-heap: a linked binary tree whose every node holds no less than its
//! children, and whose right spine is kept short, so that two heaps merge quickly.

use vstd::prelude::*;
use super::PriorityQueue;
use vstd::multiset::Multiset;
use super::{Prioritized, is_max_of};
use crate::binary_tree::linked_binary_tree::{LinkedBinaryTree, Node};
use crate::vec::MyVec;

verus! {

broadcast use vstd::multiset::group_multiset_axioms;

/// An element of a leftist heap with the null path length of its node: the number of
/// nodes on the shortest way down to a missing child.
pub struct LeftNode<T> {
    pub elem: T,
    pub npl: usize,
}

/// The elements of the heap hanging from `link`.
pub open spec fn heap_elems<T>(link: Option<Box<Node<LeftNode<T>>>>) -> Multiset<T>
    decreases link,
{
    match link {
        None => Multiset::empty(),
        Some(n) => heap_elems(n.left).add(heap_elems(n.right)).insert(n.elem.elem),
    }
}

/// The number of nodes of the heap hanging from `link`.
pub open spec fn heap_count<T>(link: Option<Box<Node<LeftNode<T>>>>) -> nat
    decreases link,
{
    match link {
        None => 0,
        Some(n) => heap_count(n.left) + heap_count(n.right) + 1,
    }
}

/// The null path length recorded at the root of `link` (zero for no node).
pub open spec fn npl_of<T>(link: Option<Box<Node<LeftNode<T>>>>) -> int {
    match link {
        None => 0,
        Some(n) => n.elem.npl as int,
    }
}

/// Whether the root of `link`, if any, has priority at most `p`.
pub open spec fn root_at_most<T: Prioritized>(link: Option<Box<Node<LeftNode<T>>>>, p: int) -> bool {
    match link {
        None => true,
        Some(n) => n.elem.elem.priority() <= p,
    }
}

/// Every node has priority no less than its children, records its null path length, and
/// its left child's null path length is no less than its right child's.
pub open spec fn heap_wf<T: Prioritized>(link: Option<Box<Node<LeftNode<T>>>>) -> bool
    decreases link,
{
    match link {
        None => true,
        Some(n) => {
            &&& heap_wf(n.left)
            &&& heap_wf(n.right)
            &&& root_at_most(n.left, n.elem.elem.priority())
            &&& root_at_most(n.right, n.elem.elem.priority())
            &&& npl_of(n.left) >= npl_of(n.right)
            &&& n.elem.npl == npl_of(n.right) + 1
        },
    }
}

/// In a well-formed heap every element has priority at most that of the root, and the
/// recorded null path length is at most the number of nodes.
pub proof fn lemma_root_is_max<T: Prioritized>(link: Option<Box<Node<LeftNode<T>>>>, p: int)
    requires
        heap_wf(link),
        root_at_most(link, p),
    ensures
        forall|x: T| #[trigger] heap_elems(link).contains(x) ==> x.priority() <= p,
        npl_of(link) <= heap_count(link),
        heap_elems(link).len() == heap_count(link),
    decreases link,
{
    match link {
        None => {
            assert forall|x: T| #[trigger] heap_elems(link).contains(x) implies x.priority() <= p by {
                assert(heap_elems(link).count(x) == 0);
            }
        },
        Some(n) => {
            let q = n.elem.elem.priority();
            lemma_root_is_max(n.left, q);
            lemma_root_is_max(n.right, q);
            let l = heap_elems(n.left);
            let r = heap_elems(n.right);
            assert forall|x: T| #[trigger] heap_elems(link).contains(x) implies x.priority() <= p by {
                if x != n.elem.elem {
                    assert(l.add(r).count(x) > 0);
                    assert(l.count(x) > 0 || r.count(x) > 0);
                    if l.count(x) > 0 {
                        assert(l.contains(x));
                    } else {
                        assert(r.contains(x));
                    }
                }
            }
        },
    }
}

/// The null path length of a heap, zero when empty.
fn npl<T>(link: &Option<Box<Node<LeftNode<T>>>>) -> (r: usize)
    ensures
        r == npl_of(*link),
{
    match link {
        None => 0,
        Some(n) => n.elem.npl,
    }
}

/// Merges two heaps: the greater root stays on top and the other heap is merged into its
/// right subtree; children are swapped where needed to keep the left side the deeper one.
fn merge_links<T: Prioritized>(a: Option<Box<Node<LeftNode<T>>>>, b: Option<Box<Node<LeftNode<T>>>>) -> (r: Option<
    Box<Node<LeftNode<T>>>,
>)
    requires
        heap_wf(a),
        heap_wf(b),
        heap_count(a) + heap_count(b) <= usize::MAX,
    ensures
        heap_wf(r),
        heap_elems(r) == heap_elems(a).add(heap_elems(b)),
        heap_count(r) == heap_count(a) + heap_count(b),
        forall|p: int| root_at_most(a, p) && root_at_most(b, p) ==> #[trigger] root_at_most(r, p),
    decreases heap_count(a) + heap_count(b),
{
    match a {
        None => {
            assert(heap_elems(a).add(heap_elems(b)) =~= heap_elems(b));
            b
        },
        Some(x) => match b {
            None => {
                assert(heap_elems(a).add(heap_elems(b)) =~= heap_elems(a));
                Some(x)
            },
            Some(y) => {
                let (mut big, small) = if x.elem.elem.less_than(&y.elem.elem) {
                    (y, x)
                } else {
                    (x, y)
                };
                let ghost big0 = *big;
                let ghost small0 = *small;
                let right = big.right.take();
                proof {
                    lemma_root_is_max(big0.left, big0.elem.elem.priority());
                    lemma_root_is_max(big0.right, big0.elem.elem.priority());
                    lemma_root_is_max(Some(Box::new(small0)), small0.elem.elem.priority());
                }
                let merged = merge_links(right, Some(small));
                big.right = merged;
                let lnpl = npl(&big.left);
                let rnpl = npl(&big.right);
                proof {
                    lemma_root_is_max(big.left, big0.elem.elem.priority());
                    lemma_root_is_max(big.right, big0.elem.elem.priority());
                }
                if lnpl < rnpl {
                    let l = big.left.take();
                    let r = big.right.take();
                    big.left = r;
                    big.right = l;
                    big.elem.npl = lnpl + 1;
                } else {
                    big.elem.npl = rnpl + 1;
                }
                proof {
                    let e = big0.elem.elem;
                    let before = heap_elems(a).add(heap_elems(b));
                    let after = heap_elems(Some(big));
                    assert(after =~= before);
                }
                Some(big)
            },
        },
    }
}

/// A leftist max-heap.
pub struct LeftHeap<T> {
    len: usize,
    tree: LinkedBinaryTree<LeftNode<T>>,
}

impl<T: Prioritized> LeftHeap<T> {
    /// The elements of the heap.
    pub closed spec fn elems(&self) -> Multiset<T> {
        heap_elems(self.tree.root)
    }

    /// Heap order, recorded null path lengths and the element count are right.
    pub closed spec fn wf(&self) -> bool {
        heap_wf(self.tree.root) && self.len == heap_count(self.tree.root)
    }

    /// Creates an empty heap.
    pub fn new() -> (h: Self)
        ensures
            h.wf(),
            h.elems() == Multiset::<T>::empty(),
    {
        LeftHeap { len: 0, tree: LinkedBinaryTree::new() }
    }

    /// The number of elements.
    pub fn len(&self) -> (n: usize)
        requires
            self.wf(),
        ensures
            n == self.elems().len(),
    {
        proof {
            lemma_root_is_max(self.tree.root, npl_of(self.tree.root) + self.root_priority());
        }
        self.len
    }

    /// The priority of the root, zero for an empty heap.
    spec fn root_priority(&self) -> int {
        match self.tree.root {
            None => 0,
            Some(n) => n.elem.elem.priority(),
        }
    }

    /// Whether the heap has no element.
    pub fn is_empty(&self) -> (b: bool)
        requires
            self.wf(),
        ensures
            b == (self.elems().len() == 0),
    {
        self.len() == 0
    }

    /// Moves all elements of `other` into this heap.
    pub fn merge(&mut self, other: Self)
        requires
            old(self).wf(),
            other.wf(),
            old(self).elems().len() + other.elems().len() <= usize::MAX,
        ensures
            final(self).wf(),
            final(self).elems() == old(self).elems().add(other.elems()),
    {
        proof {
            lemma_root_is_max(self.tree.root, self.root_priority());
            lemma_root_is_max(other.tree.root, other.root_priority());
        }
        let len = self.len + other.len;
        let root = self.tree.root.take();
        self.tree.root = merge_links(root, other.tree.root);
        self.len = len;
    }

    /// Adds an element.
    pub fn insert(&mut self, elem: T)
        requires
            old(self).wf(),
            old(self).elems().len() < usize::MAX,
        ensures
            final(self).wf(),
            final(self).elems() == old(self).elems().insert(elem),
    {
        let mut single = LinkedBinaryTree::new();
        single.root = Some(Box::new(Node { left: None, right: None, elem: LeftNode { elem, npl: 1 } }));
        let heap = LeftHeap { len: 1, tree: single };
        proof {
            let e: Option<Box<Node<LeftNode<T>>>> = None;
            assert(heap_elems(e) =~= Multiset::<T>::empty());
            assert(heap_elems(e).add(heap_elems(e)) =~= Multiset::<T>::empty());
            assert(heap.elems() =~= Multiset::<T>::empty().insert(elem));
            reveal_with_fuel(heap_wf, 2);
            reveal_with_fuel(heap_count, 2);
            assert(heap_wf(heap.tree.root));
            assert(heap.len == heap_count(heap.tree.root));
            assert(old(self).elems().add(heap.elems()) =~= old(self).elems().insert(elem));
        }
        self.merge(heap);
    }

    /// The element of greatest priority, or `None` for an empty heap.
    pub fn get_max(&self) -> (r: Option<&T>)
        requires
            self.wf(),
        ensures
            self.elems().len() == 0 ==> r is None,
            self.elems().len() > 0 ==> (r matches Some(x) && self.elems().contains(*x) && forall|y: T|
                #[trigger] self.elems().contains(y) ==> y.priority() <= x.priority()),
    {
        proof {
            lemma_root_is_max(self.tree.root, self.root_priority());
        }
        match &self.tree.root {
            Some(n) => Some(&n.elem.elem),
            None => None,
        }
    }

    /// Removes and returns the element of greatest priority, or `None` for an empty heap.
    pub fn delete_max(&mut self) -> (r: Option<T>)
        requires
            old(self).wf(),
        ensures
            final(self).wf(),
            old(self).elems().len() == 0 ==> r is None && final(self).elems() == old(self).elems(),
            old(self).elems().len() > 0 ==> (r matches Some(x) && old(self).elems().contains(x) && forall|y: T|
                #[trigger] old(self).elems().contains(y) ==> y.priority() <= x.priority())
                && final(self).elems() == old(self).elems().remove(r->0),
    {
        proof {
            lemma_root_is_max(self.tree.root, self.root_priority());
        }
        match self.tree.root.take() {
            None => None,
            Some(node) => {
                let ghost n0 = *node;
                let Node { left, right, elem } = *node;
                proof {
                    lemma_root_is_max(left, elem.elem.priority());
                    lemma_root_is_max(right, elem.elem.priority());
                }
                self.tree.root = merge_links(left, right);
                self.len = self.len - 1;
                proof {
                    assert(heap_elems(Some(Box::new(n0))).remove(elem.elem) =~= heap_elems(left).add(heap_elems(right)));
                }
                Some(elem.elem)
            },
        }
    }

    /// A heap holding the elements of `vec`.
    pub fn from(vec: MyVec<T>) -> (h: Self)
        ensures
            h.wf(),
            h.elems() == vec@.to_multiset(),
    {
        let mut vec = vec;
        let mut heap = LeftHeap::new();
        let ghost all = vec@;
        let total = vec.len();
        proof {
            broadcast use vstd::seq_lib::group_to_multiset_ensures;
            assert(heap.elems().add(vec@.to_multiset()) =~= all.to_multiset());
        }
        while !vec.is_empty()
            invariant
                heap.wf(),
                heap.elems().add(vec@.to_multiset()) == all.to_multiset(),
                heap.elems().len() + vec@.len() == all.len(),
                all.len() == total,
            decreases vec@.len(),
        {
            let ghost before = vec@;
            let x = vec.pop().unwrap();
            proof {
                broadcast use vstd::seq_lib::group_to_multiset_ensures;
                assert(before =~= vec@.push(x));
                assert(before.to_multiset() =~= vec@.to_multiset().insert(x));
            }
            heap.insert(x);
            proof {
                assert(heap.elems().add(vec@.to_multiset()) =~= all.to_multiset());
            }
        }
        proof {
            broadcast use vstd::seq_lib::group_to_multiset_ensures;
            assert(vec@ =~= Seq::<T>::empty());
            assert(vec@.to_multiset() =~= Multiset::<T>::empty());
            assert(heap.elems() =~= all.to_multiset());
        }
        heap
    }
}

impl<T: Prioritized> Default for LeftHeap<T> {
    fn default() -> (h: Self)
        ensures
            h.wf(),
            h.elems() == Multiset::<T>::empty(),
    {
        LeftHeap::new()
    }
}

impl<T: Prioritized> PriorityQueue<T> for LeftHeap<T> {
    closed spec fn items(&self) -> Multiset<T> {
        self.elems()
    }

    closed spec fn inv(&self) -> bool {
        self.wf()
    }

    closed spec fn has_room(&self) -> bool {
        self.elems().len() < usize::MAX
    }

    fn len(&self) -> (n: usize) {
        LeftHeap::len(self)
    }

    fn delete_max(&mut self) -> (r: Option<T>) {
        LeftHeap::delete_max(self)
    }

    fn get_max(&self) -> (r: Option<&T>) {
        LeftHeap::get_max(self)
    }

    fn insert(&mut self, elem: T) {
        LeftHeap::insert(self, elem)
    }
}

} // verus!
