//! A growable vector with the list operations used throughout the crate.

use vstd::prelude::*;

verus! {

/// Error returned when an index falls outside the valid range of a list.
#[derive(Debug, Clone, Copy, PartialEq, Eq)]
pub struct IndexError;

/// A vector that doubles its capacity when it is full, as `Vec` does.
pub struct MyVec<T> {
    buf: Vec<T>,
}

impl<T> View for MyVec<T> {
    type V = Seq<T>;

    open spec fn view(&self) -> Seq<T> {
        self.spec_seq()
    }
}

/// Exchanges two elements of a vector.
#[verifier::external_body]
pub(crate) fn vec_swap<T>(v: &mut Vec<T>, i: usize, j: usize)
    requires
        i < old(v).len(),
        j < old(v).len(),
    ensures
        final(v)@ == old(v)@.update(i as int, old(v)@[j as int]).update(j as int, old(v)@[i as int]),
{
    v.swap(i, j);
}

/// Swapping two positions of a sequence keeps its multiset of elements.
pub proof fn lemma_swap_multiset<T>(s: Seq<T>, i: int, j: int)
    requires
        0 <= i < s.len(),
        0 <= j < s.len(),
    ensures
        s.update(i, s[j]).update(j, s[i]).to_multiset() == s.to_multiset(),
{
    broadcast use vstd::seq_lib::to_multiset_update, vstd::multiset::group_multiset_axioms;
    let m = s.to_multiset();
    let s1 = s.update(i, s[j]);
    assert(s1[j] == s[j]);
    assert(s.contains(s[i]));
    vstd::seq_lib::to_multiset_contains(s, s[i]);
    vstd::seq_lib::to_multiset_contains(s, s[j]);
    let m1 = m.insert(s[j]).remove(s[i]);
    assert(s1.to_multiset() == m1);
    let m2 = m1.insert(s[i]).remove(s[j]);
    assert(s1.update(j, s[i]).to_multiset() == m2);
    assert forall|x: T| m2.count(x) == m.count(x) by {
        if x == s[i] && x == s[j] {
        } else if x == s[i] {
        } else if x == s[j] {
        } else {
        }
    }
    assert(m2 =~= m);
}

impl<T> MyVec<T> {
    /// The elements of the vector, in order.
    pub closed spec fn spec_seq(&self) -> Seq<T> {
        self.buf@
    }

    /// Creates an empty vector.
    pub fn new() -> (v: Self)
        ensures
            v@ == Seq::<T>::empty(),
    {
        MyVec { buf: Vec::new() }
    }

    /// Creates a vector holding the elements of `v` in the same order.
    pub fn from_vec(v: Vec<T>) -> (r: Self)
        ensures
            r@ == v@,
    {
        MyVec { buf: v }
    }

    /// Gives back the elements as a `Vec`, in the same order.
    pub fn into_vec(self) -> (v: Vec<T>)
        ensures
            v@ == self@,
    {
        self.buf
    }

    /// Appends an element at the end.
    pub fn push(&mut self, elem: T)
        ensures
            final(self)@ == old(self)@.push(elem),
    {
        self.buf.push(elem);
    }

    /// Removes the last element and returns it, or `None` when the vector is empty.
    pub fn pop(&mut self) -> (r: Option<T>)
        ensures
            old(self)@.len() == 0 ==> r is None && final(self)@ == old(self)@,
            old(self)@.len() > 0 ==> r == Some(old(self)@.last()) && final(self)@ == old(self)@.drop_last(),
    {
        self.buf.pop()
    }

    /// Number of elements.
    pub fn len(&self) -> (n: usize)
        ensures
            n == self@.len(),
    {
        self.buf.len()
    }

    /// Whether the vector holds no element.
    pub fn is_empty(&self) -> (b: bool)
        ensures
            b <==> self@.len() == 0,
    {
        self.buf.len() == 0
    }

    /// Whether `index` names an element of the vector.
    pub fn is_index_read_valid(&self, index: usize) -> (b: bool)
        ensures
            b <==> index < self@.len(),
    {
        index < self.buf.len()
    }

    /// Whether an element can be inserted before position `index`.
    pub fn is_index_insert_valid(&self, index: usize) -> (b: bool)
        ensures
            b <==> index <= self@.len(),
    {
        index <= self.buf.len()
    }

    /// A reference to the element at `index`.
    pub fn get(&self, index: usize) -> (r: Result<&T, IndexError>)
        ensures
            index < self@.len() ==> r == Ok::<&T, IndexError>(&self@[index as int]),
            index >= self@.len() ==> r == Err::<&T, IndexError>(IndexError),
    {
        if index < self.buf.len() {
            Ok(&self.buf[index])
        } else {
            Err(IndexError)
        }
    }

    /// Replaces the element at `index`, returning the old one.
    pub fn replace(&mut self, index: usize, elem: T) -> (r: Result<T, IndexError>)
        ensures
            index < old(self)@.len() ==> r == Ok::<T, IndexError>(old(self)@[index as int])
                && final(self)@ == old(self)@.update(index as int, elem),
            index >= old(self)@.len() ==> r == Err::<T, IndexError>(IndexError) && final(self)@ == old(self)@,
    {
        if index < self.buf.len() {
            self.buf.insert(index, elem);
            let prev = self.buf.remove(index + 1);
            proof {
                assert(self.buf@ =~= old(self)@.update(index as int, elem));
            }
            Ok(prev)
        } else {
            Err(IndexError)
        }
    }

    /// Exchanges the elements at `i` and `j`.
    pub fn swap(&mut self, i: usize, j: usize) -> (r: Result<(), IndexError>)
        ensures
            i < old(self)@.len() && j < old(self)@.len() ==> r is Ok && final(self)@ == old(self)@.update(
                i as int,
                old(self)@[j as int],
            ).update(j as int, old(self)@[i as int]),
            !(i < old(self)@.len() && j < old(self)@.len()) ==> r == Err::<(), IndexError>(IndexError)
                && final(self)@ == old(self)@,
    {
        if i < self.buf.len() && j < self.buf.len() {
            vec_swap(&mut self.buf, i, j);
            Ok(())
        } else {
            Err(IndexError)
        }
    }

    /// Inserts `x` before position `index`, shifting the later elements.
    pub fn insert(&mut self, index: usize, x: T) -> (r: Result<(), IndexError>)
        ensures
            index <= old(self)@.len() ==> r is Ok && final(self)@ == old(self)@.insert(index as int, x),
            index > old(self)@.len() ==> r == Err::<(), IndexError>(IndexError) && final(self)@ == old(self)@,
    {
        if index <= self.buf.len() {
            self.buf.insert(index, x);
            Ok(())
        } else {
            Err(IndexError)
        }
    }

    /// Removes the element at `index` and returns it, shifting the later elements.
    pub fn delete(&mut self, index: usize) -> (r: Result<T, IndexError>)
        ensures
            index < old(self)@.len() ==> r == Ok::<T, IndexError>(old(self)@[index as int])
                && final(self)@ == old(self)@.remove(index as int),
            index >= old(self)@.len() ==> r == Err::<T, IndexError>(IndexError) && final(self)@ == old(self)@,
    {
        if index < self.buf.len() {
            Ok(self.buf.remove(index))
        } else {
            Err(IndexError)
        }
    }
}

impl<T> Default for MyVec<T> {
    fn default() -> (v: Self)
        ensures
            v@ == Seq::<T>::empty(),
    {
        MyVec::new()
    }
}

} // verus!
