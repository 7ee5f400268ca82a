//! Ordered maps kept in binary search trees, and the key orders they rely on.

pub mod bst2;
pub mod llrbt;
pub mod avl;
pub mod splay;
pub mod rbt;
pub mod bt;

use vstd::prelude::*;
use vstd::std_specs::iter::IteratorSpec;

verus! {

broadcast use {vstd::string::axiom_spec_iter, vstd::string::next_postcondition};

/// A key with its value.
pub struct Entry<K, V> {
    pub key: K,
    pub value: V,
}

/// The outcome of comparing two keys.
#[derive(Debug, Clone, Copy, PartialEq, Eq, Structural)]
pub enum Cmp {
    Less,
    Equal,
    Greater,
}

/// Keys of an ordered map: a total order on their views, and an executable comparison
/// that follows it.
pub trait MapKey: View + Sized {
    /// Whether `a` comes no later than `b`.
    spec fn key_le(a: Self::V, b: Self::V) -> bool;

    /// Every key comes no later than itself.
    proof fn lemma_reflexive(a: Self::V)
        ensures
            Self::key_le(a, a),
    ;

    /// The order is transitive.
    proof fn lemma_transitive(a: Self::V, b: Self::V, c: Self::V)
        requires
            Self::key_le(a, b),
            Self::key_le(b, c),
        ensures
            Self::key_le(a, c),
    ;

    /// Two keys each no later than the other are the same key.
    proof fn lemma_antisymmetric(a: Self::V, b: Self::V)
        requires
            Self::key_le(a, b),
            Self::key_le(b, a),
        ensures
            a == b,
    ;

    /// Any two keys are ordered one way or the other.
    proof fn lemma_total(a: Self::V, b: Self::V)
        ensures
            Self::key_le(a, b) || Self::key_le(b, a),
    ;

    /// Compares `self` with `other`.
    fn compare(&self, other: &Self) -> (c: Cmp)
        ensures
            c == Cmp::Less <==> Self::key_le(self@, other@) && self@ != other@,
            c == Cmp::Equal <==> self@ == other@,
            c == Cmp::Greater <==> Self::key_le(other@, self@) && self@ != other@,
    ;

    /// Another key with the same view.
    fn duplicate(&self) -> (r: Self)
        ensures
            r@ == self@,
    ;
}

/// A map from keys to values, kept in key order.
pub trait OrderedMap<K: MapKey, V>: Sized {
    /// What the map holds, by key.
    spec fn contents(&self) -> Map<K::V, V>;

    /// The map's own invariant.
    spec fn valid(&self) -> bool;

    /// Whether one more entry can be inserted.
    spec fn can_grow(&self) -> bool;

    /// The value stored under `key`, if any.
    fn get(&self, key: &K) -> (r: Option<&V>)
        requires
            self.valid(),
        ensures
            match r {
                Some(v) => self.contents().dom().contains(key@) && *v == self.contents()[key@],
                None => !self.contents().dom().contains(key@),
            },
    ;

    /// A mutable reference to the value stored under `key`, if any.
    fn get_mut(&mut self, key: &K) -> (r: Option<&mut V>)
        requires
            old(self).valid(),
        ensures
            final(self).valid(),
            match r {
                Some(v) => old(self).contents().dom().contains(key@) && *v == old(self).contents()[key@]
                    && final(self).contents() == old(self).contents().insert(key@, *final(v)),
                None => !old(self).contents().dom().contains(key@) && final(self).contents()
                    == old(self).contents(),
            },
    ;

    /// Stores `value` under `key`, returning the value it replaced, if any.
    fn insert(&mut self, key: K, value: V) -> (r: Option<V>)
        requires
            old(self).valid(),
            old(self).can_grow(),
        ensures
            final(self).valid(),
            final(self).contents() == old(self).contents().insert(key@, value),
            old(self).contents().dom().contains(key@) ==> r == Some(old(self).contents()[key@]),
            !old(self).contents().dom().contains(key@) ==> r is None,
    ;

    /// A mutable reference to the value stored under `key`, after inserting `default`
    /// under it when the key is absent.
    fn get_mut_or_insert(&mut self, key: K, default: V) -> (r: &mut V)
        requires
            old(self).valid(),
            old(self).can_grow(),
        ensures
            final(self).valid(),
            *r == if old(self).contents().dom().contains(key@) {
                old(self).contents()[key@]
            } else {
                default
            },
            final(self).contents() == old(self).contents().insert(key@, *final(r)),
    ;

    /// Removes the entry for `key`, returning its value, if any.
    fn remove(&mut self, key: &K) -> (r: Option<V>)
        requires
            old(self).valid(),
        ensures
            final(self).valid(),
            final(self).contents() == old(self).contents().remove(key@),
            old(self).contents().dom().contains(key@) ==> r == Some(old(self).contents()[key@]),
            !old(self).contents().dom().contains(key@) ==> r is None,
    ;

    /// The number of entries.
    fn len(&self) -> (n: usize)
        requires
            self.valid(),
        ensures
            n == self.contents().len(),
    ;

    /// Whether the map has no entry.
    fn is_empty(&self) -> (b: bool)
        requires
            self.valid(),
        ensures
            b == (self.contents().len() == 0),
    {
        self.len() == 0
    }
}

/// Whether `a` comes strictly before `b`.
pub open spec fn key_lt<K: MapKey>(a: K::V, b: K::V) -> bool {
    K::key_le(a, b) && a != b
}

/// Strict order is transitive.
pub proof fn lemma_lt_transitive<K: MapKey>(a: K::V, b: K::V, c: K::V)
    requires
        key_lt::<K>(a, b),
        key_lt::<K>(b, c),
    ensures
        key_lt::<K>(a, c),
{
    K::lemma_transitive(a, b, c);
    if a == c {
        K::lemma_antisymmetric(a, b);
    }
}

/// Two different keys are ordered strictly one way or the other, and not both ways.
pub proof fn lemma_lt_trichotomy<K: MapKey>(a: K::V, b: K::V)
    ensures
        a == b || key_lt::<K>(a, b) || key_lt::<K>(b, a),
        !(key_lt::<K>(a, b) && key_lt::<K>(b, a)),
{
    K::lemma_total(a, b);
    if K::key_le(a, b) && K::key_le(b, a) {
        K::lemma_antisymmetric(a, b);
    }
}

/// Three-way comparison of two integers.
fn compare_ints(a: i128, b: i128) -> (c: Cmp)
    ensures
        c == Cmp::Less <==> a < b,
        c == Cmp::Equal <==> a == b,
        c == Cmp::Greater <==> a > b,
{
    if a < b {
        Cmp::Less
    } else if a == b {
        Cmp::Equal
    } else {
        Cmp::Greater
    }
}

impl MapKey for i32 {
    open spec fn key_le(a: i32, b: i32) -> bool {
        a <= b
    }

    proof fn lemma_reflexive(a: i32) {
    }

    proof fn lemma_transitive(a: i32, b: i32, c: i32) {
    }

    proof fn lemma_antisymmetric(a: i32, b: i32) {
    }

    proof fn lemma_total(a: i32, b: i32) {
    }

    fn compare(&self, other: &Self) -> (c: Cmp) {
        compare_ints(*self as i128, *other as i128)
    }

    fn duplicate(&self) -> (r: Self) {
        *self
    }
}

impl MapKey for i64 {
    open spec fn key_le(a: i64, b: i64) -> bool {
        a <= b
    }

    proof fn lemma_reflexive(a: i64) {
    }

    proof fn lemma_transitive(a: i64, b: i64, c: i64) {
    }

    proof fn lemma_antisymmetric(a: i64, b: i64) {
    }

    proof fn lemma_total(a: i64, b: i64) {
    }

    fn compare(&self, other: &Self) -> (c: Cmp) {
        compare_ints(*self as i128, *other as i128)
    }

    fn duplicate(&self) -> (r: Self) {
        *self
    }
}

impl MapKey for u64 {
    open spec fn key_le(a: u64, b: u64) -> bool {
        a <= b
    }

    proof fn lemma_reflexive(a: u64) {
    }

    proof fn lemma_transitive(a: u64, b: u64, c: u64) {
    }

    proof fn lemma_antisymmetric(a: u64, b: u64) {
    }

    proof fn lemma_total(a: u64, b: u64) {
    }

    fn compare(&self, other: &Self) -> (c: Cmp) {
        compare_ints(*self as i128, *other as i128)
    }

    fn duplicate(&self) -> (r: Self) {
        *self
    }
}

impl MapKey for usize {
    open spec fn key_le(a: usize, b: usize) -> bool {
        a <= b
    }

    proof fn lemma_reflexive(a: usize) {
    }

    proof fn lemma_transitive(a: usize, b: usize, c: usize) {
    }

    proof fn lemma_antisymmetric(a: usize, b: usize) {
    }

    proof fn lemma_total(a: usize, b: usize) {
    }

    fn compare(&self, other: &Self) -> (c: Cmp) {
        compare_ints(*self as i128, *other as i128)
    }

    fn duplicate(&self) -> (r: Self) {
        *self
    }
}

/// Lexicographic order on character sequences, by code point.
pub open spec fn chars_le(a: Seq<char>, b: Seq<char>) -> bool
    decreases a.len(),
{
    if a.len() == 0 {
        true
    } else if b.len() == 0 {
        false
    } else if a[0] != b[0] {
        a[0] < b[0]
    } else {
        chars_le(a.drop_first(), b.drop_first())
    }
}

/// Every character sequence comes no later than itself.
pub proof fn lemma_chars_reflexive(a: Seq<char>)
    ensures
        chars_le(a, a),
    decreases a.len(),
{
    if a.len() > 0 {
        lemma_chars_reflexive(a.drop_first());
    }
}

/// The lexicographic order is transitive.
pub proof fn lemma_chars_transitive(a: Seq<char>, b: Seq<char>, c: Seq<char>)
    requires
        chars_le(a, b),
        chars_le(b, c),
    ensures
        chars_le(a, c),
    decreases a.len(),
{
    if a.len() > 0 && b.len() > 0 && c.len() > 0 {
        if a[0] == b[0] && b[0] == c[0] {
            lemma_chars_transitive(a.drop_first(), b.drop_first(), c.drop_first());
        }
    }
}

/// Two character sequences each no later than the other are equal.
pub proof fn lemma_chars_antisymmetric(a: Seq<char>, b: Seq<char>)
    requires
        chars_le(a, b),
        chars_le(b, a),
    ensures
        a == b,
    decreases a.len(),
{
    if a.len() > 0 && b.len() > 0 {
        assert(a[0] == b[0]);
        lemma_chars_antisymmetric(a.drop_first(), b.drop_first());
        assert(a =~= seq![a[0]] + a.drop_first());
        assert(b =~= seq![b[0]] + b.drop_first());
    } else {
        assert(a =~= b);
    }
}

/// Any two character sequences are ordered one way or the other.
pub proof fn lemma_chars_total(a: Seq<char>, b: Seq<char>)
    ensures
        chars_le(a, b) || chars_le(b, a),
    decreases a.len(),
{
    if a.len() > 0 && b.len() > 0 && a[0] == b[0] {
        lemma_chars_total(a.drop_first(), b.drop_first());
    }
}

/// Compares two strings lexicographically, by code point.
fn compare_strs(a: &str, b: &str) -> (c: Cmp)
    ensures
        c == Cmp::Less <==> chars_le(a@, b@) && a@ != b@,
        c == Cmp::Equal <==> a@ == b@,
        c == Cmp::Greater <==> chars_le(b@, a@) && a@ != b@,
{
    proof {
        lemma_chars_total(a@, b@);
        if chars_le(a@, b@) && chars_le(b@, a@) {
            lemma_chars_antisymmetric(a@, b@);
        }
        lemma_chars_reflexive(a@);
    }
    let mut x = a.chars();
    let mut y = b.chars();
    loop
        invariant
            chars_le(a@, b@) == chars_le(x.remaining(), y.remaining()),
            chars_le(b@, a@) == chars_le(y.remaining(), x.remaining()),
            (a@ == b@) == (x.remaining() == y.remaining()),
            x.decrease() is Some,
        decreases x.decrease()->0,
    {
        let ghost xr = x.remaining();
        let ghost yr = y.remaining();
        let cx = x.next();
        let cy = y.next();
        match (cx, cy) {
            (None, None) => {
                assert(xr =~= yr);
                return Cmp::Equal;
            },
            (None, Some(_)) => {
                assert(xr != yr);
                return Cmp::Less;
            },
            (Some(_), None) => {
                assert(xr != yr);
                return Cmp::Greater;
            },
            (Some(p), Some(q)) => {
                if p < q {
                    assert(xr[0] != yr[0]);
                    return Cmp::Less;
                } else if p > q {
                    assert(xr[0] != yr[0]);
                    return Cmp::Greater;
                }
                assert(xr[0] == yr[0]);
                assert(xr =~= seq![xr[0]] + xr.drop_first());
                assert(yr =~= seq![yr[0]] + yr.drop_first());
                assert((xr == yr) == (xr.drop_first() == yr.drop_first()));
            },
        }
    }
}

impl<'a> MapKey for &'a str {
    open spec fn key_le(a: Seq<char>, b: Seq<char>) -> bool {
        chars_le(a, b)
    }

    proof fn lemma_reflexive(a: Seq<char>) {
        lemma_chars_reflexive(a);
    }

    proof fn lemma_transitive(a: Seq<char>, b: Seq<char>, c: Seq<char>) {
        lemma_chars_transitive(a, b, c);
    }

    proof fn lemma_antisymmetric(a: Seq<char>, b: Seq<char>) {
        lemma_chars_antisymmetric(a, b);
    }

    proof fn lemma_total(a: Seq<char>, b: Seq<char>) {
        lemma_chars_total(a, b);
    }

    fn compare(&self, other: &Self) -> (c: Cmp) {
        compare_strs(*self, *other)
    }

    fn duplicate(&self) -> (r: Self) {
        *self
    }
}

impl MapKey for String {
    open spec fn key_le(a: Seq<char>, b: Seq<char>) -> bool {
        chars_le(a, b)
    }

    proof fn lemma_reflexive(a: Seq<char>) {
        lemma_chars_reflexive(a);
    }

    proof fn lemma_transitive(a: Seq<char>, b: Seq<char>, c: Seq<char>) {
        lemma_chars_transitive(a, b, c);
    }

    proof fn lemma_antisymmetric(a: Seq<char>, b: Seq<char>) {
        lemma_chars_antisymmetric(a, b);
    }

    proof fn lemma_total(a: Seq<char>, b: Seq<char>) {
        lemma_chars_total(a, b);
    }

    fn compare(&self, other: &Self) -> (c: Cmp) {
        compare_strs(self.as_str(), other.as_str())
    }

    fn duplicate(&self) -> (r: Self) {
        self.clone()
    }
}

} // verus!
