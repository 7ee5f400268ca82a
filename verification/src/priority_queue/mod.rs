//! Max-priority queues.

pub mod complete_heap;
pub mod left_heap;

use vstd::prelude::*;
use vstd::multiset::Multiset;

verus! {

/// Items that a priority queue can order: each has an integer priority, and
/// two items compare by their priorities.
pub trait Prioritized {
    /// The priority of the item; a greater value comes out of a max-queue first.
    spec fn priority(&self) -> int;

    /// Whether `self` has a strictly smaller priority than `other`.
    fn less_than(&self, other: &Self) -> (r: bool)
        ensures
            r == (self.priority() < other.priority()),
    ;
}

impl Prioritized for i64 {
    open spec fn priority(&self) -> int {
        *self as int
    }

    fn less_than(&self, other: &Self) -> (r: bool) {
        *self < *other
    }
}

impl Prioritized for u64 {
    open spec fn priority(&self) -> int {
        *self as int
    }

    fn less_than(&self, other: &Self) -> (r: bool) {
        *self < *other
    }
}

/// Whether `s` is sorted by ascending priority.
pub open spec fn sorted_by_priority<T: Prioritized>(s: Seq<T>) -> bool {
    forall|i: int, j: int| 0 <= i <= j < s.len() ==> s[i].priority() <= s[j].priority()
}

/// Whether `x` has the greatest priority among the elements of `s`.
pub open spec fn is_max_of<T: Prioritized>(x: T, s: Seq<T>) -> bool {
    forall|k: int| 0 <= k < s.len() ==> s[k].priority() <= x.priority()
}

/// A max-priority queue: elements go in in any order and come out greatest priority first.
pub trait PriorityQueue<T: Prioritized>: Sized {
    /// The elements held.
    spec fn items(&self) -> Multiset<T>;

    /// The queue's own invariant.
    spec fn inv(&self) -> bool;

    /// Whether the queue's counters have room for one more element.
    spec fn has_room(&self) -> bool;

    /// The number of elements.
    fn len(&self) -> (n: usize)
        requires
            self.inv(),
        ensures
            n == self.items().len(),
    ;

    /// Whether the queue is empty.
    fn is_empty(&self) -> (b: bool)
        requires
            self.inv(),
        ensures
            b == (self.items().len() == 0),
    {
        self.len() == 0
    }

    /// Removes and returns an element of greatest priority, or `None` when the queue is
    /// empty.
    fn delete_max(&mut self) -> (r: Option<T>)
        requires
            old(self).inv(),
            old(self).has_room(),
        ensures
            final(self).inv(),
            old(self).items().len() == 0 ==> r is None && final(self).items() == old(self).items(),
            old(self).items().len() > 0 ==> (r matches Some(x) && old(self).items().contains(x) && (forall|y: T|
                #[trigger] old(self).items().contains(y) ==> y.priority() <= x.priority()) && final(self).items()
                == old(self).items().remove(x)),
    ;

    /// A reference to an element of greatest priority, or `None` when the queue is empty.
    fn get_max(&self) -> (r: Option<&T>)
        requires
            self.inv(),
        ensures
            self.items().len() == 0 ==> r is None,
            self.items().len() > 0 ==> (r matches Some(x) && self.items().contains(*x) && forall|y: T|
                #[trigger] self.items().contains(y) ==> y.priority() <= x.priority()),
    ;

    /// Adds an element.
    fn insert(&mut self, elem: T)
        requires
            old(self).inv(),
            old(self).has_room(),
        ensures
            final(self).inv(),
            final(self).items() == old(self).items().insert(elem),
    ;
}

} // verus!
