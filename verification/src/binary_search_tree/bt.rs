//! An ordered map kept in a B-tree of order `M`: every node holds a sorted run of entries
//! and, unless it is a leaf, one more subtree than entries, each subtree holding the keys
//! between two neighbouring entries. A node that comes to hold `M` entries is split around
//! its middle one; a node left with too few borrows from a sibling or merges with it.

use vstd::prelude::*;
use vstd::seq_lib::lemma_flatten_concat;
use super::{MapKey, OrderedMap, Cmp, Entry, key_lt, lemma_lt_transitive, lemma_lt_trichotomy};
use super::bst2::pairs;

verus! {

/// A node of a B-tree: its entries in key order and, unless it is a leaf, its subtrees.
pub struct BNode<K, V> {
    pub entries: Vec<Entry<K, V>>,
    pub children: Vec<BNode<K, V>>,
}

/// The node's entries and its subtrees' entries as runs in symmetric order: subtree 0,
/// entry 0, subtree 1, ..., the last subtree; or, for a leaf, one run per entry.
pub open spec fn parts<K, V>(n: BNode<K, V>) -> Seq<Seq<Entry<K, V>>>
    decreases n, 0nat,
{
    if n.children.len() == 0 {
        Seq::new(n.entries@.len(), |i: int| seq![n.entries[i]])
    } else {
        Seq::new(
            (2 * n.entries@.len() + 1) as nat,
            |i: int|
                if i % 2 == 0 {
                    if 0 <= i / 2 < n.children.len() {
                        flat(n.children[i / 2])
                    } else {
                        Seq::empty()
                    }
                } else {
                    seq![n.entries[i / 2]]
                },
        )
    }
}

/// All entries of the tree rooted at `n`, in symmetric order.
pub open spec fn flat<K, V>(n: BNode<K, V>) -> Seq<Entry<K, V>>
    decreases n, 1nat,
{
    parts(n).flatten()
}

/// A leaf has no subtrees; any other node has one more subtree than entries; and so on
/// all the way down.
pub open spec fn shape_ok<K, V>(n: BNode<K, V>) -> bool
    decreases n,
{
    &&& (n.children.len() == 0 || n.children.len() == n.entries.len() + 1)
    &&& forall|i: int| 0 <= i < n.children.len() ==> shape_ok(#[trigger] n.children[i])
}

/// The keys of `s` increase strictly.
pub open spec fn sorted_entries<K: MapKey, V>(s: Seq<Entry<K, V>>) -> bool {
    forall|i: int, j: int| 0 <= i < j < s.len() ==> key_lt::<K>((#[trigger] s[i]).key@, (#[trigger] s[j]).key@)
}

/// Whether some entry of `s` has the key `k`.
pub open spec fn has_key<K: View, V>(s: Seq<Entry<K, V>>, k: K::V) -> bool {
    exists|i: int| 0 <= i < s.len() && (#[trigger] s[i]).key@ == k
}

/// The position in `s` of an entry with the key `k`.
pub open spec fn key_index<K: View, V>(s: Seq<Entry<K, V>>, k: K::V) -> int {
    choose|i: int| 0 <= i < s.len() && (#[trigger] s[i]).key@ == k
}

/// The entries of `s` as a map from keys to values.
pub open spec fn entries_map<K: View, V>(s: Seq<Entry<K, V>>) -> Map<K::V, V> {
    Map::new(|k: K::V| has_key(s, k), |k: K::V| s[key_index(s, k)].value)
}

/// Every key of `s` before position `p` comes before `k`, every one from `p` on after it.
pub open spec fn splits_at<K: MapKey, V>(s: Seq<Entry<K, V>>, p: int, k: K::V) -> bool {
    &&& 0 <= p <= s.len()
    &&& forall|i: int| 0 <= i < p ==> key_lt::<K>((#[trigger] s[i]).key@, k)
    &&& forall|i: int| p <= i < s.len() ==> key_lt::<K>(k, (#[trigger] s[i]).key@)
}

/// In a sorted run the entry with a given key is the one at its position.
proof fn lemma_key_index<K: MapKey, V>(s: Seq<Entry<K, V>>, i: int)
    requires
        sorted_entries(s),
        0 <= i < s.len(),
    ensures
        has_key(s, s[i].key@),
        key_index(s, s[i].key@) == i,
        entries_map(s).dom().contains(s[i].key@),
        entries_map(s)[s[i].key@] == s[i].value,
{
    assert(has_key(s, s[i].key@));
    let j = key_index(s, s[i].key@);
    if j < i {
        assert(key_lt::<K>(s[j].key@, s[i].key@));
    } else if i < j {
        assert(key_lt::<K>(s[i].key@, s[j].key@));
    }
}

/// A key that splits a run is not in it.
proof fn lemma_splits_absent<K: MapKey, V>(s: Seq<Entry<K, V>>, p: int, k: K::V)
    requires
        splits_at(s, p, k),
    ensures
        !has_key(s, k),
        !entries_map(s).dom().contains(k),
{
    if has_key(s, k) {
        let j = choose|i: int| 0 <= i < s.len() && (#[trigger] s[i]).key@ == k;
        if j < p {
            assert(key_lt::<K>(s[j].key@, k));
        } else {
            assert(key_lt::<K>(k, s[j].key@));
        }
    }
}

/// Inserting an entry where its key splits a sorted run keeps it sorted and adds the entry.
proof fn lemma_insert_sorted<K: MapKey, V>(s: Seq<Entry<K, V>>, p: int, e: Entry<K, V>)
    requires
        sorted_entries(s),
        splits_at(s, p, e.key@),
    ensures
        sorted_entries(s.insert(p, e)),
        entries_map(s.insert(p, e)) == entries_map(s).insert(e.key@, e.value),
{
    let t = s.insert(p, e);
    assert forall|i: int, j: int| 0 <= i < j < t.len() implies key_lt::<K>((#[trigger] t[i]).key@, (#[trigger] t[j]).key@) by {
        if i < p && j > p {
            lemma_lt_transitive::<K>(t[i].key@, e.key@, t[j].key@);
        }
        if i < p && j < p {
            assert(t[i] == s[i] && t[j] == s[j]);
        }
        if i > p {
            assert(t[i] == s[i - 1] && t[j] == s[j - 1]);
        }
        if i < p && j > p {
            assert(t[i] == s[i] && t[j] == s[j - 1]);
        }
    }
    lemma_splits_absent(s, p, e.key@);
    let m = entries_map(s).insert(e.key@, e.value);
    assert forall|k: K::V| #[trigger] entries_map(t).dom().contains(k) == m.dom().contains(k) by {
        if has_key(t, k) {
            let j = choose|i: int| 0 <= i < t.len() && (#[trigger] t[i]).key@ == k;
            if j < p {
                assert(s[j] == t[j]);
            } else if j > p {
                assert(s[j - 1] == t[j]);
            }
        }
        if has_key(s, k) {
            let j = choose|i: int| 0 <= i < s.len() && (#[trigger] s[i]).key@ == k;
            if j < p {
                assert(s[j] == t[j]);
            } else {
                assert(s[j] == t[j + 1]);
            }
        }
        assert(t[p] == e);
    }
    assert forall|k: K::V| #[trigger] entries_map(t).dom().contains(k) implies entries_map(t)[k] == m[k] by {
        let j = key_index(t, k);
        lemma_key_index(t, j);
        if j < p {
            assert(s[j] == t[j]);
            lemma_key_index(s, j);
        } else if j > p {
            assert(s[j - 1] == t[j]);
            lemma_key_index(s, j - 1);
        }
    }
    assert(entries_map(t) =~= m);
}

/// Replacing the value of an entry of a sorted run keeps it sorted and updates that key.
proof fn lemma_update_sorted<K: MapKey, V>(s: Seq<Entry<K, V>>, i: int, e: Entry<K, V>)
    requires
        sorted_entries(s),
        0 <= i < s.len(),
        e.key@ == s[i].key@,
    ensures
        sorted_entries(s.update(i, e)),
        entries_map(s.update(i, e)) == entries_map(s).insert(e.key@, e.value),
{
    let t = s.update(i, e);
    assert forall|a: int, b: int| 0 <= a < b < t.len() implies key_lt::<K>((#[trigger] t[a]).key@, (#[trigger] t[b]).key@) by {
        assert(s[a].key@ == t[a].key@ && s[b].key@ == t[b].key@);
    }
    let m = entries_map(s).insert(e.key@, e.value);
    lemma_key_index(s, i);
    assert forall|k: K::V| #[trigger] entries_map(t).dom().contains(k) == m.dom().contains(k) by {
        if has_key(t, k) {
            let j = choose|a: int| 0 <= a < t.len() && (#[trigger] t[a]).key@ == k;
            assert(s[j].key@ == t[j].key@);
        }
        if has_key(s, k) {
            let j = choose|a: int| 0 <= a < s.len() && (#[trigger] s[a]).key@ == k;
            assert(s[j].key@ == t[j].key@);
        }
    }
    assert forall|k: K::V| #[trigger] entries_map(t).dom().contains(k) implies entries_map(t)[k] == m[k] by {
        let j = key_index(t, k);
        lemma_key_index(t, j);
        if j != i {
            assert(s[j] == t[j]);
            lemma_key_index(s, j);
        }
    }
    assert(entries_map(t) =~= m);
}

/// Removing an entry from a sorted run keeps it sorted and removes its key.
proof fn lemma_remove_sorted<K: MapKey, V>(s: Seq<Entry<K, V>>, i: int)
    requires
        sorted_entries(s),
        0 <= i < s.len(),
    ensures
        sorted_entries(s.remove(i)),
        entries_map(s.remove(i)) == entries_map(s).remove(s[i].key@),
{
    let t = s.remove(i);
    assert forall|a: int, b: int| 0 <= a < b < t.len() implies key_lt::<K>((#[trigger] t[a]).key@, (#[trigger] t[b]).key@) by {
        if a < i && b >= i {
            assert(t[a] == s[a] && t[b] == s[b + 1]);
        } else if a < i {
            assert(t[a] == s[a] && t[b] == s[b]);
        } else {
            assert(t[a] == s[a + 1] && t[b] == s[b + 1]);
        }
    }
    let k0 = s[i].key@;
    let m = entries_map(s).remove(k0);
    assert forall|k: K::V| #[trigger] entries_map(t).dom().contains(k) == m.dom().contains(k) by {
        if has_key(t, k) {
            let j = choose|a: int| 0 <= a < t.len() && (#[trigger] t[a]).key@ == k;
            if j < i {
                assert(t[j] == s[j]);
                assert(key_lt::<K>(s[j].key@, k0));
            } else {
                assert(t[j] == s[j + 1]);
                assert(key_lt::<K>(k0, s[j + 1].key@));
            }
        }
        if has_key(s, k) && k != k0 {
            let j = choose|a: int| 0 <= a < s.len() && (#[trigger] s[a]).key@ == k;
            if j < i {
                assert(t[j] == s[j]);
            } else {
                assert(j != i);
                assert(t[j - 1] == s[j]);
            }
        }
    }
    assert forall|k: K::V| #[trigger] entries_map(t).dom().contains(k) implies entries_map(t)[k] == m[k] by {
        let j = key_index(t, k);
        lemma_key_index(t, j);
        if j < i {
            assert(t[j] == s[j]);
            lemma_key_index(s, j);
        } else {
            assert(t[j] == s[j + 1]);
            lemma_key_index(s, j + 1);
        }
    }
    assert(entries_map(t) =~= m);
}

/// Flattening a run of runs splits at any two positions.
proof fn lemma_flatten_split<E>(p: Seq<Seq<E>>, a: int, b: int)
    requires
        0 <= a <= b <= p.len(),
    ensures
        p.flatten() == p.subrange(0, a).flatten() + p.subrange(a, b).flatten() + p.subrange(b, p.len() as int).flatten(),
{
    assert(p =~= p.subrange(0, a) + p.subrange(a, b) + p.subrange(b, p.len() as int));
    lemma_flatten_concat(p.subrange(0, a) + p.subrange(a, b), p.subrange(b, p.len() as int));
    lemma_flatten_concat(p.subrange(0, a), p.subrange(a, b));
}

/// Flattening one, two or three runs concatenates them.
proof fn lemma_flatten_small<E>(x: Seq<E>, y: Seq<E>, z: Seq<E>)
    ensures
        seq![x].flatten() == x,
        seq![x, y].flatten() == x + y,
        seq![x, y, z].flatten() == x + y + z,
{
    reveal_with_fuel(Seq::flatten, 4);
    assert(seq![x].drop_first() =~= Seq::<Seq<E>>::empty());
    assert(seq![x, y].drop_first() =~= seq![y]);
    assert(seq![y].drop_first() =~= Seq::<Seq<E>>::empty());
    assert(seq![x, y, z].drop_first() =~= seq![y, z]);
    assert(seq![y, z].drop_first() =~= seq![z]);
    assert(seq![z].drop_first() =~= Seq::<Seq<E>>::empty());
    assert(seq![x].flatten() =~= x);
    assert(seq![y].flatten() =~= y);
    assert(seq![z].flatten() =~= z);
    assert(seq![y, z].flatten() =~= y + z);
    assert(seq![x, y].flatten() =~= x + y);
    assert(seq![x, y, z].flatten() =~= x + y + z);
}

/// The runs of a leaf are its entries one by one, so its entries are its whole content.
proof fn lemma_leaf_flat<K, V>(n: BNode<K, V>)
    requires
        n.children.len() == 0,
    ensures
        flat(n) == n.entries@,
    decreases n.entries@.len(),
{
    lemma_singletons_flatten(n.entries@);
    assert(parts(n) =~= Seq::new(n.entries@.len(), |i: int| seq![n.entries@[i]]));
}

/// Flattening the runs of single entries gives back the entries.
proof fn lemma_singletons_flatten<E>(s: Seq<E>)
    ensures
        Seq::new(s.len(), |i: int| seq![s[i]]).flatten() == s,
    decreases s.len(),
{
    let p = Seq::new(s.len(), |i: int| seq![s[i]]);
    if s.len() > 0 {
        lemma_singletons_flatten(s.drop_first());
        assert(p.drop_first() =~= Seq::new(s.drop_first().len(), |i: int| seq![s.drop_first()[i]]));
        assert(p.flatten() =~= s);
    } else {
        assert(p.flatten() =~= s);
    }
}

/// The run at position `t` of a node: a subtree's entries at even positions of an inner
/// node, an entry elsewhere.
proof fn lemma_part_at<K, V>(n: BNode<K, V>, t: int)
    requires
        n.children.len() == 0 || n.children.len() == n.entries.len() + 1,
        0 <= t < parts(n).len(),
    ensures
        n.children.len() == 0 ==> parts(n).len() == n.entries.len() && parts(n)[t] == seq![n.entries[t]],
        n.children.len() > 0 ==> parts(n).len() == 2 * n.entries.len() + 1,
        n.children.len() > 0 && t % 2 == 0 ==> parts(n)[t] == flat(n.children[t / 2]),
        n.children.len() > 0 && t % 2 == 1 ==> parts(n)[t] == seq![n.entries[t / 2]],
{
}

/// A node made of a stretch of another node's entries and the subtrees around them has
/// the matching stretch of its runs.
proof fn lemma_parts_sub<K, V>(big: BNode<K, V>, small: BNode<K, V>, a: int, b: int)
    requires
        0 <= a <= b <= big.entries.len(),
        small.entries@ == big.entries@.subrange(a, b),
        big.children.len() == 0 ==> small.children.len() == 0,
        big.children.len() == big.entries.len() + 1 ==> small.children@ == big.children@.subrange(a, b + 1),
        big.children.len() == 0 || big.children.len() == big.entries.len() + 1,
    ensures
        big.children.len() == 0 ==> parts(small) == parts(big).subrange(a, b),
        big.children.len() > 0 ==> parts(small) == parts(big).subrange(2 * a, 2 * b + 1),
{
    if big.children.len() == 0 {
        assert(parts(small) =~= parts(big).subrange(a, b));
    } else {
        let ps = parts(small);
        let pb = parts(big).subrange(2 * a, 2 * b + 1);
        assert(ps.len() == pb.len());
        assert forall|i: int| 0 <= i < ps.len() implies ps[i] == pb[i] by {
            assert((2 * a + i) / 2 == a + i / 2);
            assert((2 * a + i) % 2 == i % 2);
        }
        assert(ps =~= pb);
    }
}

/// The entries of the runs of `n` before run `t`.
pub open spec fn before<K, V>(n: BNode<K, V>, t: int) -> Seq<Entry<K, V>> {
    parts(n).subrange(0, t).flatten()
}

/// The entries of the runs of `n` after run `t`.
pub open spec fn after<K, V>(n: BNode<K, V>, t: int) -> Seq<Entry<K, V>> {
    parts(n).subrange(t + 1, parts(n).len() as int).flatten()
}

/// The entries of a node are those before a run, the run, and those after it.
proof fn lemma_at_part<K, V>(n: BNode<K, V>, t: int)
    requires
        0 <= t < parts(n).len(),
    ensures
        flat(n) == before(n, t) + parts(n)[t] + after(n, t),
{
    lemma_flatten_split(parts(n), t, t + 1);
    assert(parts(n).subrange(t, t + 1) =~= seq![parts(n)[t]]);
    lemma_flatten_small(parts(n)[t], parts(n)[t], parts(n)[t]);
}

/// Splitting a node around its entry `mid` splits its entries around that entry.
proof fn lemma_split_flat<K, V>(c: BNode<K, V>, left: BNode<K, V>, right: BNode<K, V>, mid: int)
    requires
        c.children.len() == 0 || c.children.len() == c.entries.len() + 1,
        0 <= mid < c.entries.len(),
        left.entries@ == c.entries@.subrange(0, mid),
        right.entries@ == c.entries@.subrange(mid + 1, c.entries.len() as int),
        c.children.len() == 0 ==> left.children.len() == 0 && right.children.len() == 0,
        c.children.len() > 0 ==> left.children@ == c.children@.subrange(0, mid + 1) && right.children@
            == c.children@.subrange(mid + 1, c.children.len() as int),
    ensures
        flat(c) == flat(left) + seq![c.entries[mid]] + flat(right),
{
    let len = c.entries.len() as int;
    lemma_parts_sub(c, left, 0, mid);
    lemma_parts_sub(c, right, mid + 1, len);
    if c.children.len() == 0 {
        lemma_part_at(c, mid);
        lemma_at_part(c, mid);
        assert(parts(c).subrange(mid + 1, parts(c).len() as int) =~= parts(c).subrange(mid + 1, len));
    } else {
        lemma_part_at(c, 2 * mid + 1);
        lemma_at_part(c, 2 * mid + 1);
        assert(parts(c).subrange(2 * mid + 2, parts(c).len() as int) =~= parts(c).subrange(
            2 * (mid + 1),
            2 * len + 1,
        ));
    }
}

/// The entries of a node without its last entry (and last subtree).
proof fn lemma_pop_back_flat<K, V>(x: BNode<K, V>, x2: BNode<K, V>)
    requires
        x.children.len() == 0 || x.children.len() == x.entries.len() + 1,
        x.entries.len() > 0,
        x2.entries@ == x.entries@.drop_last(),
        x.children.len() == 0 ==> x2.children.len() == 0,
        x.children.len() > 0 ==> x2.children@ == x.children@.drop_last(),
    ensures
        flat(x) == flat(x2) + seq![x.entries@.last()] + if x.children.len() == 0 {
            Seq::empty()
        } else {
            flat(x.children@.last())
        },
{
    let len = x.entries.len() as int;
    assert(x.entries@.drop_last() =~= x.entries@.subrange(0, len - 1));
    if x.children.len() == 0 {
        lemma_parts_sub(x, x2, 0, len - 1);
        lemma_part_at(x, len - 1);
        lemma_at_part(x, len - 1);
        assert(parts(x).subrange(len, len) =~= Seq::<Seq<Entry<K, V>>>::empty());
        assert(parts(x).subrange(len, len).flatten() =~= Seq::<Entry<K, V>>::empty());
        assert(flat(x) =~= flat(x2) + seq![x.entries@.last()]);
    } else {
        assert(x.children@.drop_last() =~= x.children@.subrange(0, len));
        lemma_parts_sub(x, x2, 0, len - 1);
        lemma_part_at(x, 2 * len - 1);
        lemma_part_at(x, 2 * len);
        lemma_flatten_split(parts(x), 2 * len - 1, 2 * len + 1);
        assert(parts(x).subrange(2 * len - 1, 2 * len + 1) =~= seq![parts(x)[2 * len - 1], parts(x)[2 * len]]);
        lemma_flatten_small(parts(x)[2 * len - 1], parts(x)[2 * len], parts(x)[2 * len]);
        assert(parts(x).subrange(2 * len + 1, 2 * len + 1) =~= Seq::<Seq<Entry<K, V>>>::empty());
        assert(parts(x).subrange(2 * len + 1, 2 * len + 1).flatten() =~= Seq::<Entry<K, V>>::empty());
        assert(flat(x) =~= flat(x2) + seq![x.entries@.last()] + flat(x.children@.last()));
    }
}

/// The entries of a node without its first entry (and first subtree).
proof fn lemma_pop_front_flat<K, V>(x: BNode<K, V>, x2: BNode<K, V>)
    requires
        x.children.len() == 0 || x.children.len() == x.entries.len() + 1,
        x.entries.len() > 0,
        x2.entries@ == x.entries@.drop_first(),
        x.children.len() == 0 ==> x2.children.len() == 0,
        x.children.len() > 0 ==> x2.children@ == x.children@.drop_first(),
    ensures
        flat(x) == (if x.children.len() == 0 {
            Seq::empty()
        } else {
            flat(x.children@[0])
        }) + seq![x.entries@[0]] + flat(x2),
{
    let len = x.entries.len() as int;
    assert(x.entries@.drop_first() =~= x.entries@.subrange(1, len));
    if x.children.len() == 0 {
        lemma_parts_sub(x, x2, 1, len);
        lemma_part_at(x, 0);
        lemma_at_part(x, 0);
        assert(parts(x).subrange(0, 0) =~= Seq::<Seq<Entry<K, V>>>::empty());
        assert(parts(x).subrange(0, 0).flatten() =~= Seq::<Entry<K, V>>::empty());
        assert(flat(x) =~= seq![x.entries@[0]] + flat(x2));
    } else {
        assert(x.children@.drop_first() =~= x.children@.subrange(1, len + 1));
        lemma_parts_sub(x, x2, 1, len);
        lemma_part_at(x, 0);
        lemma_part_at(x, 1);
        lemma_flatten_split(parts(x), 0, 2);
        assert(parts(x).subrange(0, 2) =~= seq![parts(x)[0], parts(x)[1]]);
        lemma_flatten_small(parts(x)[0], parts(x)[1], parts(x)[1]);
        assert(parts(x).subrange(0, 0) =~= Seq::<Seq<Entry<K, V>>>::empty());
        assert(parts(x).subrange(0, 0).flatten() =~= Seq::<Entry<K, V>>::empty());
        assert(flat(x) =~= flat(x.children@[0]) + seq![x.entries@[0]] + flat(x2));
    }
}

/// Replacing subtree `j` of an inner node replaces its entries in the node's entries.
proof fn lemma_replace_child<K, V>(n: BNode<K, V>, n2: BNode<K, V>, j: int, c2: BNode<K, V>)
    requires
        n.children.len() == n.entries.len() + 1,
        0 <= j < n.children.len(),
        n2.entries@ == n.entries@,
        n2.children@ == n.children@.update(j, c2),
    ensures
        flat(n) == before(n, 2 * j) + flat(n.children[j]) + after(n, 2 * j),
        flat(n2) == before(n, 2 * j) + flat(c2) + after(n, 2 * j),
{
    lemma_part_at(n, 2 * j);
    lemma_at_part(n, 2 * j);
    assert(parts(n2) =~= parts(n).update(2 * j, flat(c2))) by {
        assert forall|i: int| 0 <= i < parts(n2).len() implies parts(n2)[i] == parts(n).update(2 * j, flat(c2))[i] by {
            if i % 2 == 0 && i != 2 * j {
                assert(i / 2 != j);
            }
        }
    }
    lemma_at_part(n2, 2 * j);
    assert(parts(n2).subrange(0, 2 * j) =~= parts(n).subrange(0, 2 * j));
    assert(parts(n2).subrange(2 * j + 1, parts(n2).len() as int) =~= parts(n).subrange(2 * j + 1, parts(n).len() as int));
}

/// Splitting subtree `j` of an inner node around an entry that moves up into the node
/// keeps the node's entries.
proof fn lemma_split_child<K, V>(n: BNode<K, V>, n2: BNode<K, V>, j: int, l: BNode<K, V>, m: Entry<K, V>, r: BNode<K, V>)
    requires
        n.children.len() == n.entries.len() + 1,
        0 <= j < n.children.len(),
        n2.entries@ == n.entries@.insert(j, m),
        n2.children@ == n.children@.update(j, l).insert(j + 1, r),
        flat(n.children[j]) == flat(l) + seq![m] + flat(r),
    ensures
        n2.children.len() == n2.entries.len() + 1,
        flat(n2) == flat(n),
{
    let len = parts(n).len() as int;
    let w2 = seq![flat(l), seq![m], flat(r)];
    let expect = parts(n).subrange(0, 2 * j) + w2 + parts(n).subrange(2 * j + 1, len);
    assert(parts(n2) =~= expect) by {
        assert forall|i: int| 0 <= i < parts(n2).len() implies parts(n2)[i] == expect[i] by {
            if i < 2 * j {
                if i % 2 == 0 {
                    assert(i / 2 < j);
                }
            } else if i >= 2 * j + 3 {
                assert((i - 2) / 2 == i / 2 - 1);
                assert((i - 2) % 2 == i % 2);
            }
        }
    }
    lemma_flatten_concat(parts(n).subrange(0, 2 * j) + w2, parts(n).subrange(2 * j + 1, len));
    lemma_flatten_concat(parts(n).subrange(0, 2 * j), w2);
    lemma_flatten_small(flat(l), seq![m], flat(r));
    lemma_part_at(n, 2 * j);
    lemma_at_part(n, 2 * j);
}

/// Merging subtrees `j` and `j + 1` of an inner node with the entry between them keeps the
/// node's entries.
proof fn lemma_merge_children<K, V>(n: BNode<K, V>, n2: BNode<K, V>, j: int, g: BNode<K, V>)
    requires
        n.children.len() == n.entries.len() + 1,
        0 <= j < n.entries.len(),
        n2.entries@ == n.entries@.remove(j),
        n2.children@ == n.children@.update(j, g).remove(j + 1),
        flat(g) == flat(n.children[j]) + seq![n.entries[j]] + flat(n.children[j + 1]),
    ensures
        n2.children.len() == n2.entries.len() + 1,
        flat(n2) == flat(n),
{
    let len = parts(n).len() as int;
    let expect = parts(n).subrange(0, 2 * j) + seq![flat(g)] + parts(n).subrange(2 * j + 3, len);
    assert(parts(n2) =~= expect) by {
        assert forall|i: int| 0 <= i < parts(n2).len() implies parts(n2)[i] == expect[i] by {
            if i < 2 * j {
                if i % 2 == 0 {
                    assert(i / 2 < j);
                }
            } else if i > 2 * j {
                assert((i + 2) / 2 == i / 2 + 1);
                assert((i + 2) % 2 == i % 2);
            }
        }
    }
    lemma_flatten_concat(parts(n).subrange(0, 2 * j) + seq![flat(g)], parts(n).subrange(2 * j + 3, len));
    lemma_flatten_concat(parts(n).subrange(0, 2 * j), seq![flat(g)]);
    lemma_flatten_small(flat(g), flat(g), flat(g));
    lemma_part_at(n, 2 * j);
    lemma_part_at(n, 2 * j + 1);
    lemma_part_at(n, 2 * j + 2);
    lemma_flatten_split(parts(n), 2 * j, 2 * j + 3);
    assert(parts(n).subrange(2 * j, 2 * j + 3) =~= seq![parts(n)[2 * j], parts(n)[2 * j + 1], parts(n)[2 * j + 2]]);
    lemma_flatten_small(parts(n)[2 * j], parts(n)[2 * j + 1], parts(n)[2 * j + 2]);
}

/// Rearranging subtrees `j`, `j + 1` and the entry between them so that together they hold
/// the same entries in the same order keeps the node's entries.
proof fn lemma_rotate<K, V>(
    n: BNode<K, V>,
    n2: BNode<K, V>,
    j: int,
    l2: BNode<K, V>,
    e2: Entry<K, V>,
    r2: BNode<K, V>,
)
    requires
        n.children.len() == n.entries.len() + 1,
        0 <= j < n.entries.len(),
        n2.entries@ == n.entries@.update(j, e2),
        n2.children@ == n.children@.update(j, l2).update(j + 1, r2),
        flat(l2) + seq![e2] + flat(r2) == flat(n.children[j]) + seq![n.entries[j]] + flat(n.children[j + 1]),
    ensures
        n2.children.len() == n2.entries.len() + 1,
        flat(n2) == flat(n),
{
    let len = parts(n).len() as int;
    lemma_part_at(n, 2 * j);
    lemma_part_at(n, 2 * j + 1);
    lemma_part_at(n, 2 * j + 2);
    lemma_part_at(n2, 2 * j);
    lemma_part_at(n2, 2 * j + 1);
    lemma_part_at(n2, 2 * j + 2);
    lemma_flatten_split(parts(n), 2 * j, 2 * j + 3);
    lemma_flatten_split(parts(n2), 2 * j, 2 * j + 3);
    assert(parts(n).subrange(2 * j, 2 * j + 3) =~= seq![parts(n)[2 * j], parts(n)[2 * j + 1], parts(n)[2 * j + 2]]);
    assert(parts(n2).subrange(2 * j, 2 * j + 3) =~= seq![parts(n2)[2 * j], parts(n2)[2 * j + 1], parts(n2)[2 * j + 2]]);
    lemma_flatten_small(parts(n)[2 * j], parts(n)[2 * j + 1], parts(n)[2 * j + 2]);
    lemma_flatten_small(parts(n2)[2 * j], parts(n2)[2 * j + 1], parts(n2)[2 * j + 2]);
    assert forall|i: int| 0 <= i < len && (i < 2 * j || i >= 2 * j + 3) implies parts(n2)[i] == parts(n)[i] by {
        if i % 2 == 0 {
            assert(i / 2 != j && i / 2 != j + 1);
        } else {
            assert(i / 2 != j);
        }
    }
    assert(parts(n2).subrange(0, 2 * j) =~= parts(n).subrange(0, 2 * j));
    assert(parts(n2).subrange(2 * j + 3, len) =~= parts(n).subrange(2 * j + 3, len));
}

/// The run that holds entry `j` of a node.
pub open spec fn entry_part<K, V>(n: BNode<K, V>, j: int) -> int {
    if n.children.len() == 0 {
        j
    } else {
        2 * j + 1
    }
}

/// Entry `j` of a node sits among the node's entries after all those of the runs before it.
proof fn lemma_entry_at<K, V>(n: BNode<K, V>, j: int)
    requires
        n.children.len() == 0 || n.children.len() == n.entries.len() + 1,
        0 <= j < n.entries.len(),
    ensures
        flat(n) == before(n, entry_part(n, j)) + seq![n.entries[j]] + after(n, entry_part(n, j)),
        flat(n)[before(n, entry_part(n, j)).len() as int] == n.entries[j],
{
    lemma_part_at(n, entry_part(n, j));
    lemma_at_part(n, entry_part(n, j));
}

/// Replacing entry `j` of a node replaces it among the node's entries.
proof fn lemma_update_entry<K, V>(n: BNode<K, V>, n2: BNode<K, V>, j: int, e2: Entry<K, V>)
    requires
        n.children.len() == 0 || n.children.len() == n.entries.len() + 1,
        0 <= j < n.entries.len(),
        n2.entries@ == n.entries@.update(j, e2),
        n2.children@ == n.children@,
    ensures
        flat(n2) == flat(n).update(before(n, entry_part(n, j)).len() as int, e2),
{
    let t = entry_part(n, j);
    lemma_entry_at(n, j);
    assert(parts(n2) =~= parts(n).update(t, seq![e2])) by {
        assert forall|i: int| 0 <= i < parts(n2).len() implies parts(n2)[i] == parts(n).update(t, seq![e2])[i] by {
            if n.children.len() > 0 && i % 2 == 1 && i != t {
                assert(i / 2 != j);
            }
        }
    }
    lemma_at_part(n2, t);
    assert(parts(n2).subrange(0, t) =~= parts(n).subrange(0, t));
    assert(parts(n2).subrange(t + 1, parts(n2).len() as int) =~= parts(n).subrange(t + 1, parts(n).len() as int));
    assert(flat(n2) =~= flat(n).update(before(n, t).len() as int, e2));
}

/// Moving the first entry of subtree `j + 1` of an inner node up in place of entry `j`
/// removes entry `j` from the node's entries.
proof fn lemma_successor_up<K, V>(n: BNode<K, V>, n2: BNode<K, V>, j: int, m: Entry<K, V>, c2: BNode<K, V>)
    requires
        n.children.len() == n.entries.len() + 1,
        0 <= j < n.entries.len(),
        n2.entries@ == n.entries@.update(j, m),
        n2.children@ == n.children@.update(j + 1, c2),
        flat(n.children[j + 1]) == seq![m] + flat(c2),
    ensures
        flat(n2) == flat(n).remove(before(n, 2 * j + 1).len() as int),
        flat(n)[before(n, 2 * j + 1).len() as int] == n.entries[j],
{
    let len = parts(n).len() as int;
    lemma_entry_at(n, j);
    lemma_part_at(n, 2 * j + 1);
    lemma_part_at(n, 2 * j + 2);
    lemma_part_at(n2, 2 * j + 1);
    lemma_part_at(n2, 2 * j + 2);
    lemma_flatten_split(parts(n), 2 * j + 1, 2 * j + 3);
    lemma_flatten_split(parts(n2), 2 * j + 1, 2 * j + 3);
    assert(parts(n).subrange(2 * j + 1, 2 * j + 3) =~= seq![parts(n)[2 * j + 1], parts(n)[2 * j + 2]]);
    assert(parts(n2).subrange(2 * j + 1, 2 * j + 3) =~= seq![parts(n2)[2 * j + 1], parts(n2)[2 * j + 2]]);
    lemma_flatten_small(parts(n)[2 * j + 1], parts(n)[2 * j + 2], parts(n)[2 * j + 2]);
    lemma_flatten_small(parts(n2)[2 * j + 1], parts(n2)[2 * j + 2], parts(n2)[2 * j + 2]);
    assert forall|i: int| 0 <= i < len && (i < 2 * j + 1 || i >= 2 * j + 3) implies parts(n2)[i] == parts(n)[i] by {
        if i % 2 == 0 {
            assert(i / 2 != j + 1);
        } else {
            assert(i / 2 != j);
        }
    }
    assert(parts(n2).subrange(0, 2 * j + 1) =~= parts(n).subrange(0, 2 * j + 1));
    assert(parts(n2).subrange(2 * j + 3, len) =~= parts(n).subrange(2 * j + 3, len));
    let b = parts(n).subrange(0, 2 * j + 1).flatten();
    let a = parts(n).subrange(2 * j + 3, len).flatten();
    assert(flat(n) =~= b + seq![n.entries[j]] + (seq![m] + flat(c2)) + a);
    assert(flat(n2) =~= b + seq![m] + flat(c2) + a);
    assert(flat(n2) =~= flat(n).remove(b.len() as int));
}

/// Whether `k` lies between the entries of `n` around position `pos`.
pub open spec fn between_entries<K: MapKey, V>(n: BNode<K, V>, pos: int, k: K::V) -> bool {
    &&& 0 <= pos <= n.entries.len()
    &&& pos > 0 ==> key_lt::<K>(n.entries[pos - 1].key@, k)
    &&& pos < n.entries.len() ==> key_lt::<K>(k, n.entries[pos].key@)
}

/// A key between the entries around position `pos` of a sorted inner node lies, among the
/// node's entries, exactly where subtree `pos` lies: all entries before come before it,
/// all after come after it.
proof fn lemma_descend<K: MapKey, V>(n: BNode<K, V>, pos: int, k: K::V)
    requires
        n.children.len() == n.entries.len() + 1,
        sorted_entries(flat(n)),
        between_entries(n, pos, k),
    ensures
        flat(n) == before(n, 2 * pos) + flat(n.children[pos]) + after(n, 2 * pos),
        forall|i: int| 0 <= i < before(n, 2 * pos).len() ==> key_lt::<K>((#[trigger] before(n, 2 * pos)[i]).key@, k),
        forall|i: int| 0 <= i < after(n, 2 * pos).len() ==> key_lt::<K>(k, (#[trigger] after(n, 2 * pos)[i]).key@),
        sorted_entries(flat(n.children[pos])),
{
    let s = flat(n);
    let b = before(n, 2 * pos);
    let c = flat(n.children[pos]);
    let a = after(n, 2 * pos);
    lemma_part_at(n, 2 * pos);
    lemma_at_part(n, 2 * pos);
    assert(s == b + c + a);
    if pos > 0 {
        lemma_part_at(n, 2 * pos - 1);
        assert(parts(n).subrange(0, 2 * pos) =~= parts(n).subrange(0, 2 * pos - 1) + seq![seq![n.entries[pos - 1]]]);
        lemma_flatten_concat(parts(n).subrange(0, 2 * pos - 1), seq![seq![n.entries[pos - 1]]]);
        lemma_flatten_small(seq![n.entries[pos - 1]], seq![n.entries[pos - 1]], seq![n.entries[pos - 1]]);
        assert(b.len() > 0 && b[b.len() - 1] == n.entries[pos - 1]);
        assert forall|i: int| 0 <= i < b.len() implies key_lt::<K>((#[trigger] b[i]).key@, k) by {
            assert(s[i] == b[i]);
            assert(s[b.len() - 1] == b[b.len() - 1]);
            if i < b.len() - 1 {
                lemma_lt_transitive::<K>(b[i].key@, n.entries[pos - 1].key@, k);
            }
        }
    } else {
        assert(parts(n).subrange(0, 0) =~= Seq::<Seq<Entry<K, V>>>::empty());
        assert(b =~= Seq::<Entry<K, V>>::empty());
    }
    let len = parts(n).len() as int;
    if pos < n.entries.len() {
        lemma_part_at(n, 2 * pos + 1);
        assert(parts(n).subrange(2 * pos + 1, len) =~= seq![seq![n.entries[pos]]] + parts(n).subrange(2 * pos + 2, len));
        lemma_flatten_concat(seq![seq![n.entries[pos]]], parts(n).subrange(2 * pos + 2, len));
        lemma_flatten_small(seq![n.entries[pos]], seq![n.entries[pos]], seq![n.entries[pos]]);
        assert(a.len() > 0 && a[0] == n.entries[pos]);
        assert forall|i: int| 0 <= i < a.len() implies key_lt::<K>(k, (#[trigger] a[i]).key@) by {
            assert(s[b.len() + c.len() + i] == a[i]);
            assert(s[(b.len() + c.len()) as int] == a[0]);
            if i > 0 {
                lemma_lt_transitive::<K>(k, n.entries[pos].key@, a[i].key@);
            }
        }
    } else {
        assert(parts(n).subrange(2 * pos + 1, len) =~= Seq::<Seq<Entry<K, V>>>::empty());
        assert(a =~= Seq::<Entry<K, V>>::empty());
    }
    assert forall|i: int, j: int| 0 <= i < j < c.len() implies key_lt::<K>((#[trigger] c[i]).key@, (#[trigger] c[j]).key@) by {
        assert(s[b.len() + i] == c[i]);
        assert(s[b.len() + j] == c[j]);
    }
}

/// The number of leading entries of `es` whose keys come no later than `k`.
pub open spec fn find_pos<K: MapKey, V>(es: Seq<Entry<K, V>>, k: K::V) -> int
    decreases es.len(),
{
    if es.len() == 0 {
        0
    } else if K::key_le(es[0].key@, k) {
        1 + find_pos(es.drop_first(), k)
    } else {
        0
    }
}

/// The leading run of keys no later than `k` ends where the first later key stands.
proof fn lemma_find_pos<K: MapKey, V>(es: Seq<Entry<K, V>>, k: K::V, p: int)
    requires
        0 <= p <= es.len(),
        forall|i: int| 0 <= i < p ==> K::key_le((#[trigger] es[i]).key@, k),
        p < es.len() ==> !K::key_le(es[p].key@, k),
    ensures
        find_pos(es, k) == p,
    decreases p,
{
    if p > 0 {
        assert(K::key_le(es[0].key@, k));
        assert forall|i: int| 0 <= i < p - 1 implies K::key_le((#[trigger] es.drop_first()[i]).key@, k) by {
            assert(es.drop_first()[i] == es[i + 1]);
        }
        lemma_find_pos(es.drop_first(), k, p - 1);
    }
}

/// A key splits a sorted run of entries wherever it lies between the entries around.
proof fn lemma_sorted_splits<K: MapKey, V>(es: Seq<Entry<K, V>>, p: int, k: K::V)
    requires
        sorted_entries(es),
        0 <= p <= es.len(),
        p > 0 ==> key_lt::<K>(es[p - 1].key@, k),
        p < es.len() ==> key_lt::<K>(k, es[p].key@),
    ensures
        splits_at(es, p, k),
{
    assert forall|i: int| 0 <= i < p implies key_lt::<K>((#[trigger] es[i]).key@, k) by {
        if i < p - 1 {
            lemma_lt_transitive::<K>(es[i].key@, es[p - 1].key@, k);
        }
    }
    assert forall|i: int| p <= i < es.len() implies key_lt::<K>(k, (#[trigger] es[i]).key@) by {
        if i > p {
            lemma_lt_transitive::<K>(k, es[p].key@, es[i].key@);
        }
    }
}

/// A key that lies between the entries before and after a stretch of a sorted run is
/// found in the whole run exactly when it is found in the stretch, with the same value.
proof fn lemma_mid_key<K: MapKey, V>(b: Seq<Entry<K, V>>, c: Seq<Entry<K, V>>, a: Seq<Entry<K, V>>, k: K::V)
    requires
        sorted_entries(b + c + a),
        forall|i: int| 0 <= i < b.len() ==> key_lt::<K>((#[trigger] b[i]).key@, k),
        forall|i: int| 0 <= i < a.len() ==> key_lt::<K>(k, (#[trigger] a[i]).key@),
    ensures
        has_key(b + c + a, k) == has_key(c, k),
        has_key(c, k) ==> entries_map(b + c + a)[k] == entries_map(c)[k] && key_index(b + c + a, k) == b.len()
            + key_index(c, k),
        sorted_entries(c),
{
    let s = b + c + a;
    assert forall|i: int, j: int| 0 <= i < j < c.len() implies key_lt::<K>((#[trigger] c[i]).key@, (#[trigger] c[j]).key@) by {
        assert(s[b.len() + i] == c[i]);
        assert(s[b.len() + j] == c[j]);
    }
    if has_key(s, k) {
        let j = choose|i: int| 0 <= i < s.len() && (#[trigger] s[i]).key@ == k;
        if j < b.len() {
            assert(s[j] == b[j]);
        } else if j >= b.len() + c.len() {
            assert(s[j] == a[j - b.len() - c.len()]);
        } else {
            assert(s[j] == c[j - b.len()]);
        }
    }
    if has_key(c, k) {
        let j = key_index(c, k);
        assert(s[b.len() + j] == c[j]);
        lemma_key_index(c, j);
        lemma_key_index(s, b.len() + j);
    }
}

/// Counts the leading entries of `n` whose keys come no later than `key`, and tells
/// whether the last of them has the key itself.
fn search<K: MapKey, V>(n: &BNode<K, V>, key: &K) -> (r: (usize, bool))
    ensures
        r.0 == find_pos(n.entries@, key@),
        r.0 <= n.entries.len(),
        r.1 <==> r.0 > 0 && n.entries[r.0 - 1].key@ == key@,
        !r.1 ==> r.0 > 0 ==> key_lt::<K>(n.entries[r.0 - 1].key@, key@),
        r.0 < n.entries.len() ==> key_lt::<K>(key@, n.entries[r.0 as int].key@),
{
    let mut i: usize = 0;
    while i < n.entries.len() && n.entries[i].key.compare(key) != Cmp::Greater
        invariant
            i <= n.entries.len(),
            forall|j: int| 0 <= j < i ==> K::key_le((#[trigger] n.entries[j]).key@, key@),
        decreases n.entries.len() - i,
    {
        proof {
            K::lemma_total(n.entries[i as int].key@, key@);
            K::lemma_reflexive(key@);
        }
        i = i + 1;
    }
    proof {
        if i < n.entries.len() && K::key_le(n.entries[i as int].key@, key@) {
            K::lemma_antisymmetric(n.entries[i as int].key@, key@);
        }
        lemma_find_pos(n.entries@, key@, i as int);
    }
    let found = i > 0 && n.entries[i - 1].key.compare(key) == Cmp::Equal;
    (i, found)
}

/// The entries of any subtree of a sorted inner node are sorted.
proof fn lemma_child_sorted<K: MapKey, V>(n: BNode<K, V>, j: int)
    requires
        n.children.len() == n.entries.len() + 1,
        sorted_entries(flat(n)),
        0 <= j < n.children.len(),
    ensures
        sorted_entries(flat(n.children[j])),
{
    lemma_part_at(n, 2 * j);
    lemma_at_part(n, 2 * j);
    let b = before(n, 2 * j);
    let c = flat(n.children[j]);
    let s = flat(n);
    assert forall|i: int, k: int| 0 <= i < k < c.len() implies key_lt::<K>((#[trigger] c[i]).key@, (#[trigger] c[k]).key@) by {
        assert(s[b.len() + i] == c[i]);
        assert(s[b.len() + k] == c[k]);
    }
}

/// A key between the entries around `pos` is absent from a sorted leaf.
proof fn lemma_leaf_absent<K: MapKey, V>(n: BNode<K, V>, pos: int, k: K::V)
    requires
        n.children.len() == 0,
        sorted_entries(flat(n)),
        between_entries(n, pos, k),
    ensures
        splits_at(flat(n), pos, k),
        !has_key(flat(n), k),
        !entries_map(flat(n)).dom().contains(k),
{
    lemma_leaf_flat(n);
    lemma_sorted_splits(flat(n), pos, k);
    lemma_splits_absent(flat(n), pos, k);
}

/// Whether the tree rooted at `n` holds any entry.
fn has_entries<K, V>(n: &BNode<K, V>) -> (b: bool)
    requires
        shape_ok(*n),
    ensures
        b == (flat(*n).len() > 0),
    decreases n,
{
    if n.entries.len() > 0 {
        proof {
            lemma_entry_at(*n, 0);
        }
        true
    } else if n.children.len() == 0 {
        proof {
            lemma_leaf_flat(*n);
        }
        false
    } else {
        proof {
            lemma_part_at(*n, 0);
            lemma_at_part(*n, 0);
            assert(parts(*n).subrange(0, 0) =~= Seq::<Seq<Entry<K, V>>>::empty());
            assert(parts(*n).subrange(1, 1) =~= Seq::<Seq<Entry<K, V>>>::empty());
            assert(before(*n, 0) =~= Seq::<Entry<K, V>>::empty());
            assert(after(*n, 0) =~= Seq::<Entry<K, V>>::empty());
        }
        has_entries(&n.children[0])
    }
}

/// The value stored under `key` in the tree rooted at `n`, if any.
fn get_rec<'a, K: MapKey, V>(n: &'a BNode<K, V>, key: &K) -> (r: Option<&'a V>)
    requires
        shape_ok(*n),
        sorted_entries(flat(*n)),
    ensures
        match r {
            Some(v) => has_key(flat(*n), key@) && *v == entries_map(flat(*n))[key@],
            None => !has_key(flat(*n), key@),
        },
    decreases n,
{
    let (pos, found) = search(n, key);
    if found {
        proof {
            lemma_entry_at(*n, pos - 1);
            lemma_key_index(flat(*n), before(*n, entry_part(*n, pos - 1)).len() as int);
        }
        Some(&n.entries[pos - 1].value)
    } else if n.children.len() == 0 {
        proof {
            lemma_leaf_absent(*n, pos as int, key@);
        }
        None
    } else {
        proof {
            lemma_descend(*n, pos as int, key@);
            lemma_mid_key(before(*n, 2 * pos), flat(n.children[pos as int]), after(*n, 2 * pos), key@);
        }
        get_rec(&n.children[pos], key)
    }
}

/// What `find_pos` counts: the leading keys no later than `k`, up to the first later one.
proof fn lemma_find_pos_facts<K: MapKey, V>(es: Seq<Entry<K, V>>, k: K::V)
    ensures
        0 <= find_pos(es, k) <= es.len(),
        forall|i: int| 0 <= i < find_pos(es, k) ==> K::key_le((#[trigger] es[i]).key@, k),
        find_pos(es, k) < es.len() ==> !K::key_le(es[find_pos(es, k)].key@, k),
    decreases es.len(),
{
    if es.len() > 0 && K::key_le(es[0].key@, k) {
        lemma_find_pos_facts(es.drop_first(), k);
        assert forall|i: int| 0 <= i < find_pos(es, k) implies K::key_le((#[trigger] es[i]).key@, k) by {
            if i > 0 {
                assert(es[i] == es.drop_first()[i - 1]);
            }
        }
    }
}

/// A key not found at the end of the leading run lies between the entries around it.
proof fn lemma_between_from_pos<K: MapKey, V>(n: BNode<K, V>, k: K::V)
    requires
        !(find_pos(n.entries@, k) > 0 && n.entries[find_pos(n.entries@, k) - 1].key@ == k),
    ensures
        between_entries(n, find_pos(n.entries@, k), k),
{
    let p = find_pos(n.entries@, k);
    lemma_find_pos_facts(n.entries@, k);
    if p < n.entries.len() {
        K::lemma_total(n.entries[p].key@, k);
        K::lemma_reflexive(k);
    }
}

/// `new` is `old` with the value under `k` replaced by `v`, found along the search path
/// for `k`.
pub open spec fn value_set<K: MapKey, V>(old: BNode<K, V>, new: BNode<K, V>, k: K::V, v: V) -> bool
    decreases old,
{
    let p = find_pos(old.entries@, k);
    if p > 0 && p <= old.entries.len() && old.entries[p - 1].key@ == k {
        &&& new.entries@ == old.entries@.update(p - 1, Entry { key: old.entries[p - 1].key, value: v })
        &&& new.children@ == old.children@
    } else if 0 <= p < old.children.len() {
        &&& new.entries@ == old.entries@
        &&& new.children.len() == old.children.len()
        &&& forall|i: int| 0 <= i < old.children.len() && i != p ==> new.children[i] == old.children[i]
        &&& value_set(old.children[p], new.children[p], k, v)
    } else {
        false
    }
}

/// The entries of `s` with the value of the entry under `k` replaced by `v`.
pub open spec fn with_value<K: View, V>(s: Seq<Entry<K, V>>, k: K::V, v: V) -> Seq<Entry<K, V>> {
    s.update(key_index(s, k), Entry { key: s[key_index(s, k)].key, value: v })
}

/// Replacing a value along the search path keeps the shape and the order of the tree,
/// and replaces that one entry's value.
proof fn lemma_value_set<K: MapKey, V>(old: BNode<K, V>, k: K::V)
    requires
        shape_ok(old),
        sorted_entries(flat(old)),
        has_key(flat(old), k),
    ensures
        forall|new: BNode<K, V>, v: V| #[trigger] value_set(old, new, k, v) ==> {
            &&& shape_ok(new)
            &&& flat(new) == with_value(flat(old), k, v)
            &&& sorted_entries(flat(new))
            &&& entries_map(flat(new)) == entries_map(flat(old)).insert(k, v)
        },
    decreases old,
{
    assert forall|new: BNode<K, V>, v: V| #[trigger] value_set(old, new, k, v) implies {
        &&& shape_ok(new)
        &&& flat(new) == with_value(flat(old), k, v)
        &&& sorted_entries(flat(new))
        &&& entries_map(flat(new)) == entries_map(flat(old)).insert(k, v)
    } by {
        let p = find_pos(old.entries@, k);
        lemma_find_pos_facts(old.entries@, k);
        if p > 0 && p <= old.entries.len() && old.entries[p - 1].key@ == k {
            let e2 = Entry { key: old.entries[p - 1].key, value: v };
            lemma_update_entry(old, new, p - 1, e2);
            let t = before(old, entry_part(old, p - 1)).len() as int;
            lemma_entry_at(old, p - 1);
            lemma_key_index(flat(old), t);
            lemma_update_sorted(flat(old), t, e2);
        } else {
            let c = old.children[p];
            let c2 = new.children[p];
            assert(new.children@ =~= old.children@.update(p, c2));
            lemma_between_from_pos(old, k);
            lemma_descend(old, p, k);
            let b = before(old, 2 * p);
            let a = after(old, 2 * p);
            lemma_mid_key(b, flat(c), a, k);
            lemma_value_set(c, k);
            assert(value_set(c, c2, k, v));
            assert(flat(c2) == with_value(flat(c), k, v));
            lemma_replace_child(old, new, p, c2);
            let q = key_index(flat(c), k);
            let e2 = Entry { key: flat(c)[q].key, value: v };
            assert(flat(new) =~= flat(old).update(b.len() + q, e2));
            lemma_update_sorted(flat(old), b.len() + q, e2);
            assert forall|i: int| 0 <= i < new.children.len() implies shape_ok(#[trigger] new.children[i]) by {
                if i != p {
                    assert(new.children[i] == old.children[i]);
                }
            }
        }
    }
}

/// A mutable reference to the value stored under `key` in the tree rooted at `n`, which
/// holds it.
fn get_mut_rec<'a, K: MapKey, V>(n: &'a mut BNode<K, V>, key: &K) -> (r: &'a mut V)
    requires
        shape_ok(*old(n)),
        sorted_entries(flat(*old(n))),
        has_key(flat(*old(n)), key@),
    ensures
        *r == entries_map(flat(*old(n)))[key@],
        value_set(*old(n), *final(n), key@, *final(r)),
    decreases *old(n),
{
    let (pos, found) = search(n, key);
    if found {
        proof {
            lemma_entry_at(*n, pos - 1);
            lemma_key_index(flat(*n), before(*n, entry_part(*n, pos - 1)).len() as int);
        }
        &mut n.entries[pos - 1].value
    } else {
        proof {
            if n.children.len() == 0 {
                lemma_leaf_absent(*n, pos as int, key@);
            }
            lemma_descend(*n, pos as int, key@);
            lemma_mid_key(before(*n, 2 * pos), flat(n.children[pos as int]), after(*n, 2 * pos), key@);
        }
        get_mut_rec(&mut n.children[pos], key)
    }
}

/// The number of levels below `n`, counted down its first subtrees.
pub open spec fn levels<K, V>(n: BNode<K, V>) -> nat
    decreases n,
{
    if n.children.len() == 0 {
        0
    } else {
        1 + levels(n.children[0])
    }
}

/// Every leaf below `n` lies `d` levels down; every node below `n` holds fewer than
/// `order` entries and at least `(order + 1) / 2 - 1`; `n` itself holds at most `top_max`
/// entries and, unless it is the root, at least that lower bound.
pub open spec fn filled<K, V>(n: BNode<K, V>, d: nat, order: nat, top_max: nat, root: bool) -> bool
    decreases n,
{
    &&& n.entries.len() <= top_max
    &&& (!root ==> n.entries.len() + 1 >= (order + 1) / 2)
    &&& if n.children.len() == 0 {
        d == 0
    } else {
        d > 0 && forall|i: int| 0 <= i < n.children.len() ==> filled(#[trigger] n.children[i], (d - 1) as nat, order, (order - 1) as nat, false)
    }
}

/// A tree whose leaves all lie `d` levels down has `d` levels.
proof fn lemma_filled_levels<K, V>(n: BNode<K, V>, d: nat, order: nat, top_max: nat, root: bool)
    requires
        filled(n, d, order, top_max, root),
    ensures
        levels(n) == d,
    decreases n,
{
    if n.children.len() > 0 {
        lemma_filled_levels(n.children[0], (d - 1) as nat, order, (order - 1) as nat, false);
    }
}

/// Splitting a full node around its middle entry leaves two nodes that each hold between
/// `(order + 1) / 2 - 1` and `order - 1` entries, over the same subtrees.
proof fn lemma_split_filled<K, V>(c: BNode<K, V>, l: BNode<K, V>, r: BNode<K, V>, d: nat, order: nat, root: bool)
    requires
        filled(c, d, order, order, root),
        node_ok(c),
        c.entries.len() == order,
        order >= 3,
        l.entries.len() == c.entries.len() / 2,
        r.entries.len() == c.entries.len() - c.entries.len() / 2 - 1,
        (c.children.len() == 0) == (l.children.len() == 0),
        (c.children.len() == 0) == (r.children.len() == 0),
        c.children.len() > 0 ==> l.children@ == c.children@.subrange(0, c.entries.len() / 2 + 1)
            && r.children@ == c.children@.subrange(c.entries.len() / 2 + 1, c.children.len() as int),
    ensures
        filled(l, d, order, (order - 1) as nat, false),
        filled(r, d, order, (order - 1) as nat, false),
{
    let half = c.entries.len() / 2;
    if c.children.len() > 0 {
        assert forall|i: int| 0 <= i < l.children.len() implies filled(#[trigger] l.children[i], (d - 1) as nat, order, (order - 1) as nat, false) by {
            assert(l.children@[i] == c.children@.subrange(0, half + 1)[i]);
        }
        assert forall|i: int| 0 <= i < r.children.len() implies filled(#[trigger] r.children[i], (d - 1) as nat, order, (order - 1) as nat, false) by {
            assert(r.children@[i] == c.children@.subrange(half + 1, c.children.len() as int)[i]);
        }
    }
}

/// Replacing a value along the search path keeps the levels and the fill of the tree.
proof fn lemma_value_set_filled<K: MapKey, V>(
    old: BNode<K, V>,
    new: BNode<K, V>,
    k: K::V,
    v: V,
    d: nat,
    order: nat,
    top_max: nat,
    root: bool,
)
    requires
        value_set(old, new, k, v),
    ensures
        filled(old, d, order, top_max, root) ==> filled(new, d, order, top_max, root),
        levels(new) == levels(old),
        new.entries.len() == old.entries.len(),
    decreases old,
{
    let p = find_pos(old.entries@, k);
    if p > 0 && p <= old.entries.len() && old.entries[p - 1].key@ == k {
        assert(new.children@ == old.children@);
        if old.children.len() > 0 {
            assert(new.children[0] == old.children[0]);
        }
        if filled(old, d, order, top_max, root) && old.children.len() > 0 {
            assert forall|i: int| 0 <= i < new.children.len() implies filled(#[trigger] new.children[i], (d - 1) as nat, order, (order - 1) as nat, false) by {
                assert(new.children[i] == old.children[i]);
            }
        }
    } else {
        lemma_value_set_filled(old.children[p], new.children[p], k, v, (d - 1) as nat, order, (order - 1) as nat, false);
        if p != 0 {
            assert(new.children[0] == old.children[0]);
        }
        if filled(old, d, order, top_max, root) && old.children.len() > 0 {
            assert forall|i: int| 0 <= i < new.children.len() implies filled(#[trigger] new.children[i], (d - 1) as nat, order, (order - 1) as nat, false) by {
                if i != p {
                    assert(new.children[i] == old.children[i]);
                }
            }
        }
    }
}

/// Whether a node has no subtree or one more subtree than entries.
pub open spec fn node_ok<K, V>(n: BNode<K, V>) -> bool {
    n.children.len() == 0 || n.children.len() == n.entries.len() + 1
}

/// Splits a node of at least three entries around its middle entry: the entries and
/// subtrees before it, the entry, and those after it.
fn split<K, V>(c: BNode<K, V>) -> (r: (BNode<K, V>, Entry<K, V>, BNode<K, V>))
    requires
        shape_ok(c),
        c.entries.len() >= 3,
    ensures
        shape_ok(r.0),
        shape_ok(r.2),
        flat(c) == flat(r.0) + seq![r.1] + flat(r.2),
        r.0.entries.len() == c.entries.len() / 2,
        r.2.entries.len() == c.entries.len() - c.entries.len() / 2 - 1,
        (c.children.len() == 0) == (r.0.children.len() == 0),
        (c.children.len() == 0) == (r.2.children.len() == 0),
        c.children.len() > 0 ==> r.0.children@ == c.children@.subrange(0, c.entries.len() / 2 + 1)
            && r.2.children@ == c.children@.subrange(c.entries.len() / 2 + 1, c.children.len() as int),
{
    let ghost c0 = c;
    let mut c = c;
    let len = c.entries.len();
    let mid = len / 2;
    let right_entries = c.entries.split_off(mid + 1);
    let mid_entry = c.entries.remove(mid);
    let right_children = if c.children.len() == 0 {
        Vec::new()
    } else {
        c.children.split_off(mid + 1)
    };
    let right = BNode { entries: right_entries, children: right_children };
    proof {
        assert(c.entries@ =~= c0.entries@.subrange(0, mid as int));
        lemma_split_flat(c0, c, right, mid as int);
        assert forall|i: int| 0 <= i < c.children.len() implies shape_ok(#[trigger] c.children[i]) by {
            assert(c.children[i] == c0.children[i]);
        }
        assert forall|i: int| 0 <= i < right.children.len() implies shape_ok(#[trigger] right.children[i]) by {
            assert(right.children[i] == c0.children[mid + 1 + i]);
        }
    }
    (c, mid_entry, right)
}

/// Splits subtree `j` of the inner node `n` when it holds `order` entries or more, its
/// middle entry moving up into `n`.
fn solve_overflow<K, V>(n: &mut BNode<K, V>, j: usize, order: usize, Ghost(d): Ghost<nat>, Ghost(root): Ghost<bool>)
    requires
        old(n).children.len() == old(n).entries.len() + 1,
        j < old(n).children.len(),
        forall|i: int| 0 <= i < old(n).children.len() ==> shape_ok(#[trigger] old(n).children[i]),
        order >= 3,
    ensures
        shape_ok(*final(n)),
        flat(*final(n)) == flat(*old(n)),
        d > 0 && old(n).entries.len() < order && (!root ==> old(n).entries.len() + 1 >= (order + 1) / 2)
            && filled(old(n).children[j as int], (d - 1) as nat, order as nat, order as nat, false)
            && (forall|i: int| 0 <= i < old(n).children.len() && i != j ==> filled(#[trigger] old(n).children[i], (d - 1) as nat, order as nat, (order - 1) as nat, false))
            ==> filled(*final(n), d, order as nat, order as nat, root),
        final(n).entries.len() >= old(n).entries.len(),
{
    if n.children[j].entries.len() >= order {
        let ghost n0 = *n;
        let c = n.children.remove(j);
        let (l, m, r) = split(c);
        n.children.insert(j, l);
        n.children.insert(j + 1, r);
        n.entries.insert(j, m);
        proof {
            assert(n.children@ =~= n0.children@.update(j as int, l).insert(j + 1, r));
            lemma_split_child(n0, *n, j as int, l, m, r);
            assert forall|i: int| 0 <= i < n.children.len() implies shape_ok(#[trigger] n.children[i]) by {
                if i < j {
                    assert(n.children[i] == n0.children[i]);
                } else if i > j + 1 {
                    assert(n.children[i] == n0.children[i - 1]);
                }
            }
            let c0 = n0.children[j as int];
            if d > 0 && n0.entries.len() < order && (!root ==> n0.entries.len() + 1 >= (order + 1) / 2)
                && filled(c0, (d - 1) as nat, order as nat, order as nat, false)
                && (forall|i: int| 0 <= i < n0.children.len() && i != j ==> filled(#[trigger] n0.children[i], (d - 1) as nat, order as nat, (order - 1) as nat, false)) {
                let half = c0.entries.len() / 2;
                assert(c0.entries.len() == order);
                if c0.children.len() > 0 {
                    assert forall|i: int| 0 <= i < l.children.len() implies filled(#[trigger] l.children[i], (d - 2) as nat, order as nat, (order - 1) as nat, false) by {
                        assert(l.children[i] == c0.children[i]);
                    }
                    assert forall|i: int| 0 <= i < r.children.len() implies filled(#[trigger] r.children[i], (d - 2) as nat, order as nat, (order - 1) as nat, false) by {
                        assert(r.children[i] == c0.children[half + 1 + i]);
                    }
                }
                assert(filled(l, (d - 1) as nat, order as nat, (order - 1) as nat, false));
                assert(filled(r, (d - 1) as nat, order as nat, (order - 1) as nat, false));
                assert forall|i: int| 0 <= i < n.children.len() implies filled(#[trigger] n.children[i], (d - 1) as nat, order as nat, (order - 1) as nat, false) by {
                    if i < j {
                        assert(n.children[i] == n0.children[i]);
                    } else if i > j + 1 {
                        assert(n.children[i] == n0.children[i - 1]);
                    }
                }
            }
        }
    } else {
        proof {
            let c0 = n.children[j as int];
            if d > 0 && n.entries.len() < order && (!root ==> n.entries.len() + 1 >= (order + 1) / 2)
                && filled(c0, (d - 1) as nat, order as nat, order as nat, false)
                && (forall|i: int| 0 <= i < n.children.len() && i != j ==> filled(#[trigger] n.children[i], (d - 1) as nat, order as nat, (order - 1) as nat, false)) {
                assert(filled(c0, (d - 1) as nat, order as nat, (order - 1) as nat, false));
                assert forall|i: int| 0 <= i < n.children.len() implies filled(#[trigger] n.children[i], (d - 1) as nat, order as nat, (order - 1) as nat, false) by {
                    if i == j {
                        assert(filled(c0, (d - 1) as nat, order as nat, (order - 1) as nat, false));
                    }
                }
            }
        }
    }
}

/// Stores `value` under `key` in the tree rooted at `n`, splitting on the way back up every
/// subtree that comes to hold `order` entries; `n` itself may be left holding `order`.
/// Returns the value `key` held before, if any, and where among the tree's entries the
/// entry went.
fn insert_rec<K: MapKey, V>(
    n: &mut BNode<K, V>,
    key: K,
    value: V,
    order: usize,
    Ghost(d): Ghost<nat>,
    Ghost(root): Ghost<bool>,
) -> (r: (Option<V>, Ghost<int>))
    requires
        shape_ok(*old(n)),
        sorted_entries(flat(*old(n))),
        order >= 3,
    ensures
        shape_ok(*final(n)),
        filled(*old(n), d, order as nat, (order - 1) as nat, root) ==> filled(*final(n), d, order as nat, order as nat, root),
        final(n).entries.len() >= old(n).entries.len(),
        r.0 is None ==> splits_at(flat(*old(n)), r.1@, key@) && flat(*final(n)) == flat(*old(n)).insert(
            r.1@,
            Entry { key, value },
        ),
        r.0 is Some ==> has_key(flat(*old(n)), key@) && r.1@ == key_index(flat(*old(n)), key@) && r.0 == Some(
            flat(*old(n))[r.1@].value,
        ) && flat(*final(n)) == flat(*old(n)).update(r.1@, Entry { key, value }),
    decreases *old(n),
{
    let ghost n0 = *n;
    let ghost k = key@;
    let ghost e = Entry { key, value };
    let (pos, found) = search(n, &key);
    if found {
        let mut entry = Entry { key, value };
        std::mem::swap(&mut n.entries[pos - 1], &mut entry);
        proof {
            lemma_entry_at(n0, pos - 1);
            let t = before(n0, entry_part(n0, pos - 1)).len() as int;
            lemma_key_index(flat(n0), t);
            lemma_update_entry(n0, *n, pos - 1, e);
        }
        (Some(entry.value), Ghost(before(n0, entry_part(n0, pos - 1)).len() as int))
    } else if n.children.len() == 0 {
        n.entries.insert(pos, Entry { key, value });
        proof {
            lemma_leaf_absent(n0, pos as int, k);
            lemma_leaf_flat(n0);
            lemma_leaf_flat(*n);
        }
        (None, Ghost(pos as int))
    } else {
        proof {
            lemma_descend(n0, pos as int, k);
            lemma_mid_key(before(n0, 2 * pos), flat(n0.children[pos as int]), after(n0, 2 * pos), k);
        }
        let (old, g) = insert_rec(&mut n.children[pos], key, value, order, Ghost((d - 1) as nat), Ghost(false));
        let ghost b = before(n0, 2 * pos);
        let ghost a = after(n0, 2 * pos);
        let ghost c0 = n0.children[pos as int];
        proof {
            lemma_replace_child(n0, *n, pos as int, n.children[pos as int]);
            if old is None {
                assert(flat(*n) =~= flat(n0).insert(b.len() + g@, e));
                assert forall|i: int| 0 <= i < b.len() + g@ implies key_lt::<K>((#[trigger] flat(n0)[i]).key@, k) by {
                    if i >= b.len() {
                        assert(flat(n0)[i] == flat(c0)[i - b.len()]);
                    } else {
                        assert(flat(n0)[i] == b[i]);
                    }
                }
                assert forall|i: int| b.len() + g@ <= i < flat(n0).len() implies key_lt::<K>(k, (#[trigger] flat(n0)[i]).key@) by {
                    if i < b.len() + flat(c0).len() {
                        assert(flat(n0)[i] == flat(c0)[i - b.len()]);
                    } else {
                        assert(flat(n0)[i] == a[i - b.len() - flat(c0).len()]);
                    }
                }
            } else {
                lemma_key_index(flat(c0), g@);
                assert(flat(n0)[b.len() + g@] == flat(c0)[g@]);
                assert(flat(*n) =~= flat(n0).update(b.len() + g@, e));
            }
            assert forall|i: int| 0 <= i < n.children.len() implies shape_ok(#[trigger] n.children[i]) by {
                if i != pos {
                    assert(n.children[i] == n0.children[i]);
                }
            }
        }
        let ghost n1 = *n;
        proof {
            if filled(n0, d, order as nat, (order - 1) as nat, root) {
                assert(n.entries == n0.entries);
                assert forall|i: int| 0 <= i < n.children.len() && i != pos implies filled(#[trigger] n.children[i], (d - 1) as nat, order as nat, (order - 1) as nat, false) by {
                    assert(n.children[i] == n0.children[i]);
                }
            }
        }
        solve_overflow(n, pos, order, Ghost(d), Ghost(root));
        (old, Ghost(b.len() + g@))
    }
}

/// Joins two nodes of the same kind (both leaves or both inner nodes) around an entry.
fn merge<K, V>(left: BNode<K, V>, mid: Entry<K, V>, right: BNode<K, V>) -> (r: BNode<K, V>)
    requires
        shape_ok(left),
        shape_ok(right),
        (left.children.len() == 0) == (right.children.len() == 0),
    ensures
        shape_ok(r),
        flat(r) == flat(left) + seq![mid] + flat(right),
        r.entries.len() == left.entries.len() + right.entries.len() + 1,
        (r.children.len() == 0) == (left.children.len() == 0),
        r.entries@ == left.entries@ + seq![mid] + right.entries@,
        r.children@ == left.children@ + right.children@,
{
    let ghost l0 = left;
    let ghost r0 = right;
    let mut left = left;
    let mut right = right;
    left.entries.push(mid);
    left.entries.append(&mut right.entries);
    left.children.append(&mut right.children);
    proof {
        let len = l0.entries.len() as int;
        assert(left.entries@ =~= l0.entries@ + seq![mid] + r0.entries@);
        assert(left.children@ =~= l0.children@ + r0.children@);
        assert(left.entries@.subrange(0, len) =~= l0.entries@);
        assert(left.entries@.subrange(len + 1, left.entries.len() as int) =~= r0.entries@);
        if l0.children.len() > 0 {
            assert(left.children@.subrange(0, len + 1) =~= l0.children@);
            assert(left.children@.subrange(len + 1, left.children.len() as int) =~= r0.children@);
        }
        lemma_split_flat(left, l0, r0, len);
        assert forall|i: int| 0 <= i < left.children.len() implies shape_ok(#[trigger] left.children[i]) by {
            if i <= len {
                assert(left.children[i] == l0.children[i]);
            } else {
                assert(left.children[i] == r0.children[i - len - 1]);
            }
        }
    }
    left
}

/// A node without entries or subtrees.
fn empty_node<K, V>() -> (r: BNode<K, V>)
    ensures
        r.entries@.len() == 0,
        r.children@.len() == 0,
        shape_ok(r),
{
    BNode { entries: Vec::new(), children: Vec::new() }
}

/// `new` is `old` after the last entry of subtree `s` moved up in place of entry `s`, which
/// moved down to the front of subtree `s + 1` together with the last subtree of subtree
/// `s`, if it has any; the other subtrees are kept.
pub open spec fn borrowed_left<K, V>(old: BNode<K, V>, new: BNode<K, V>, s: int) -> bool {
    let l = old.children[s];
    let c = old.children[s + 1];
    let l2 = new.children[s];
    let c2 = new.children[s + 1];
    &&& new.entries@ == old.entries@.update(s, l.entries@.last())
    &&& new.children.len() == old.children.len()
    &&& forall|i: int| 0 <= i < old.children.len() && i != s && i != s + 1 ==> new.children[i] == old.children[i]
    &&& l2.entries@ == l.entries@.drop_last()
    &&& c2.entries@ == seq![old.entries[s]] + c.entries@
    &&& if l.children.len() > 0 {
        l2.children@ == l.children@.drop_last() && c2.children@ == seq![l.children@.last()] + c.children@
    } else {
        l2.children@ == l.children@ && c2.children@ == c.children@
    }
}

/// `new` is `old` after the first entry of subtree `s + 1` moved up in place of entry `s`,
/// which moved down to the back of subtree `s` together with the first subtree of subtree
/// `s + 1`, if it has any; the other subtrees are kept.
pub open spec fn borrowed_right<K, V>(old: BNode<K, V>, new: BNode<K, V>, s: int) -> bool {
    let c = old.children[s];
    let r = old.children[s + 1];
    let c2 = new.children[s];
    let r2 = new.children[s + 1];
    &&& new.entries@ == old.entries@.update(s, r.entries@[0])
    &&& new.children.len() == old.children.len()
    &&& forall|i: int| 0 <= i < old.children.len() && i != s && i != s + 1 ==> new.children[i] == old.children[i]
    &&& r2.entries@ == r.entries@.drop_first()
    &&& c2.entries@ == c.entries@.push(old.entries[s])
    &&& if r.children.len() > 0 {
        r2.children@ == r.children@.drop_first() && c2.children@ == c.children@.push(r.children@[0])
    } else {
        r2.children@ == r.children@ && c2.children@ == c.children@
    }
}

/// `new` is `old` after subtrees `s` and `s + 1` were joined, with entry `s` between them,
/// into one subtree at `s`; the other subtrees are kept.
pub open spec fn merged_at<K, V>(old: BNode<K, V>, new: BNode<K, V>, s: int) -> bool {
    let g = new.children[s];
    &&& new.entries@ == old.entries@.remove(s)
    &&& new.children.len() == old.children.len() - 1
    &&& forall|i: int| 0 <= i < s ==> new.children[i] == old.children[i]
    &&& forall|i: int| s < i < new.children.len() ==> new.children[i] == old.children[i + 1]
    &&& g.entries@ == old.children[s].entries@ + seq![old.entries[s]] + old.children[s + 1].entries@
    &&& g.children@ == old.children[s].children@ + old.children[s + 1].children@
}

/// Moves the last entry of subtree `s` of `n` up in place of entry `s`, which moves down to
/// the front of subtree `s + 1`, along with the last subtree of subtree `s`.
fn borrow_from_left<K, V>(n: &mut BNode<K, V>, s: usize)
    requires
        old(n).children.len() == old(n).entries.len() + 1,
        s < old(n).entries.len(),
        forall|i: int| 0 <= i < old(n).children.len() ==> shape_ok(#[trigger] old(n).children[i]),
        old(n).children[s as int].entries.len() > 0,
        (old(n).children[s as int].children.len() == 0) == (old(n).children[s + 1].children.len() == 0),
    ensures
        shape_ok(*final(n)),
        flat(*final(n)) == flat(*old(n)),
        borrowed_left(*old(n), *final(n), s as int),
{
    let ghost n0 = *n;
    let mut left = empty_node();
    let mut child = empty_node();
    std::mem::swap(&mut left, &mut n.children[s]);
    std::mem::swap(&mut child, &mut n.children[s + 1]);
    let ghost l0 = left;
    let ghost c0 = child;
    let le = left.entries.remove(left.entries.len() - 1);
    let mut e = le;
    std::mem::swap(&mut e, &mut n.entries[s]);
    child.entries.insert(0, e);
    if left.children.len() > 0 {
        let lc = left.children.remove(left.children.len() - 1);
        child.children.insert(0, lc);
        proof {
            assert(child.children@ =~= seq![l0.children@.last()] + c0.children@);
        }
    }
    proof {
        assert(child.entries@ =~= seq![n0.entries[s as int]] + c0.entries@);
        assert(le == l0.entries@.last());
        assert(left.entries@ =~= l0.entries@.drop_last());
        assert(left.children.len() > 0 ==> left.children@ =~= l0.children@.drop_last());
        lemma_pop_back_flat(l0, left);
        assert(c0.entries@ =~= child.entries@.drop_first());
        assert(child.children.len() > 0 ==> c0.children@ =~= child.children@.drop_first());
        lemma_pop_front_flat(child, c0);
        assert(flat(left) + seq![le] + flat(child) =~= flat(l0) + seq![n0.entries[s as int]] + flat(c0));
        assert forall|i: int| 0 <= i < left.children.len() implies shape_ok(#[trigger] left.children[i]) by {
            assert(left.children[i] == l0.children[i]);
        }
        assert forall|i: int| 0 <= i < child.children.len() implies shape_ok(#[trigger] child.children[i]) by {
            if i > 0 {
                assert(child.children[i] == c0.children[i - 1]);
            } else {
                assert(child.children[0] == l0.children@.last());
            }
        }
    }
    std::mem::swap(&mut left, &mut n.children[s]);
    std::mem::swap(&mut child, &mut n.children[s + 1]);
    proof {
        assert(n.children@ =~= n0.children@.update(s as int, n.children[s as int]).update(s + 1, n.children[s + 1]));
        lemma_rotate(n0, *n, s as int, n.children[s as int], le, n.children[s + 1]);
        assert forall|i: int| 0 <= i < n.children.len() implies shape_ok(#[trigger] n.children[i]) by {
            if i != s && i != s + 1 {
                assert(n.children[i] == n0.children[i]);
            }
        }
        assert(n.entries@ =~= n0.entries@.update(s as int, l0.entries@.last()));
        assert(l0 == n0.children[s as int] && c0 == n0.children[s + 1]);
        assert(borrowed_left(n0, *n, s as int));
    }
}

/// Moves the first entry of subtree `s + 1` of `n` up in place of entry `s`, which moves
/// down to the back of subtree `s`, along with the first subtree of subtree `s + 1`.
fn borrow_from_right<K, V>(n: &mut BNode<K, V>, s: usize)
    requires
        old(n).children.len() == old(n).entries.len() + 1,
        s < old(n).entries.len(),
        forall|i: int| 0 <= i < old(n).children.len() ==> shape_ok(#[trigger] old(n).children[i]),
        old(n).children[s + 1].entries.len() > 0,
        (old(n).children[s as int].children.len() == 0) == (old(n).children[s + 1].children.len() == 0),
    ensures
        shape_ok(*final(n)),
        flat(*final(n)) == flat(*old(n)),
        borrowed_right(*old(n), *final(n), s as int),
{
    let ghost n0 = *n;
    let mut child = empty_node();
    let mut right = empty_node();
    std::mem::swap(&mut child, &mut n.children[s]);
    std::mem::swap(&mut right, &mut n.children[s + 1]);
    let ghost c0 = child;
    let ghost r0 = right;
    let re = right.entries.remove(0);
    let mut e = re;
    std::mem::swap(&mut e, &mut n.entries[s]);
    child.entries.push(e);
    if right.children.len() > 0 {
        let rc = right.children.remove(0);
        child.children.push(rc);
    }
    proof {
        assert(right.entries@ =~= r0.entries@.drop_first());
        assert(right.children.len() > 0 ==> right.children@ =~= r0.children@.drop_first());
        lemma_pop_front_flat(r0, right);
        assert(c0.entries@ =~= child.entries@.drop_last());
        assert(child.children.len() > 0 ==> c0.children@ =~= child.children@.drop_last());
        lemma_pop_back_flat(child, c0);
        assert(flat(child) + seq![re] + flat(right) =~= flat(c0) + seq![n0.entries[s as int]] + flat(r0));
        assert forall|i: int| 0 <= i < right.children.len() implies shape_ok(#[trigger] right.children[i]) by {
            assert(right.children[i] == r0.children[i + 1]);
        }
        assert forall|i: int| 0 <= i < child.children.len() implies shape_ok(#[trigger] child.children[i]) by {
            if i < c0.children.len() {
                assert(child.children[i] == c0.children[i]);
            } else {
                assert(child.children[i] == r0.children[0]);
            }
        }
    }
    std::mem::swap(&mut child, &mut n.children[s]);
    std::mem::swap(&mut right, &mut n.children[s + 1]);
    proof {
        assert(n.children@ =~= n0.children@.update(s as int, n.children[s as int]).update(s + 1, n.children[s + 1]));
        lemma_rotate(n0, *n, s as int, n.children[s as int], re, n.children[s + 1]);
        assert forall|i: int| 0 <= i < n.children.len() implies shape_ok(#[trigger] n.children[i]) by {
            if i != s && i != s + 1 {
                assert(n.children[i] == n0.children[i]);
            }
        }
    }
}

/// Merges subtrees `s` and `s + 1` of `n` with entry `s` between them.
fn merge_at<K, V>(n: &mut BNode<K, V>, s: usize)
    requires
        old(n).children.len() == old(n).entries.len() + 1,
        s < old(n).entries.len(),
        forall|i: int| 0 <= i < old(n).children.len() ==> shape_ok(#[trigger] old(n).children[i]),
        (old(n).children[s as int].children.len() == 0) == (old(n).children[s + 1].children.len() == 0),
    ensures
        shape_ok(*final(n)),
        flat(*final(n)) == flat(*old(n)),
        final(n).entries.len() == old(n).entries.len() - 1,
        merged_at(*old(n), *final(n), s as int),
{
    let ghost n0 = *n;
    let right = n.children.remove(s + 1);
    let e = n.entries.remove(s);
    let left = n.children.remove(s);
    let g = merge(left, e, right);
    n.children.insert(s, g);
    proof {
        assert(n.children@ =~= n0.children@.update(s as int, g).remove(s + 1));
        lemma_merge_children(n0, *n, s as int, g);
        assert forall|i: int| 0 <= i < n.children.len() implies shape_ok(#[trigger] n.children[i]) by {
            if i < s {
                assert(n.children[i] == n0.children[i]);
            } else if i > s {
                assert(n.children[i] == n0.children[i + 1]);
            }
        }
    }
}

/// Whether subtrees `a` and `b` of `n` are of the same kind: both leaves or both inner.
fn same_kind<K, V>(n: &BNode<K, V>, a: usize, b: usize) -> (r: bool)
    requires
        a < n.children.len(),
        b < n.children.len(),
    ensures
        r == ((n.children[a as int].children.len() == 0) == (n.children[b as int].children.len() == 0)),
{
    (n.children[a].children.len() == 0) == (n.children[b].children.len() == 0)
}

/// Whether subtrees `a` and `b` of `n` are both leaves or both inner nodes.
pub open spec fn kinds_match<K, V>(n: BNode<K, V>, a: int, b: int) -> bool {
    (n.children[a].children.len() == 0) == (n.children[b].children.len() == 0)
}

/// What repairing subtree `j` of `old` for a B-tree of order `order` makes of it: nothing
/// when that subtree holds at least `ceil(order / 2) - 1` entries; else an entry borrowed
/// from the left sibling, else from the right sibling, when the sibling holds at least
/// `ceil(order / 2)` and is of the same kind; else a merge with the left sibling, else with
/// the right one, when of the same kind; else nothing.
pub open spec fn underflow_repaired<K, V>(old: BNode<K, V>, new: BNode<K, V>, j: int, order: int) -> bool {
    let min_fill = order / 2 + order % 2;
    let unchanged = new.entries@ == old.entries@ && new.children@ == old.children@;
    if !(min_fill > 0 && old.children[j].entries.len() < min_fill - 1) {
        unchanged
    } else if j > 0 && old.children[j - 1].entries.len() >= min_fill && kinds_match(old, j - 1, j) {
        borrowed_left(old, new, j - 1)
    } else if j + 1 < old.children.len() && old.children[j + 1].entries.len() >= min_fill && kinds_match(old, j, j + 1) {
        borrowed_right(old, new, j)
    } else if j > 0 && kinds_match(old, j - 1, j) {
        merged_at(old, new, j - 1)
    } else if j + 1 < old.children.len() && kinds_match(old, j, j + 1) {
        merged_at(old, new, j)
    } else {
        unchanged
    }
}

/// `n` as `filled` asks of a node that is not the root, but that it may hold one entry
/// fewer than the lower bound.
pub open spec fn filled_but_one<K, V>(n: BNode<K, V>, d: nat, order: nat) -> bool {
    filled(n, d, order, (order - 1) as nat, true) && n.entries.len() + 2 >= (order + 1) / 2
}

/// A node with one subtree short of an entry, and every other subtree filled, comes out
/// of the repair with every subtree filled, and with at most one entry fewer.
proof fn lemma_underflow_filled<K, V>(old: BNode<K, V>, new: BNode<K, V>, j: int, order: nat, d: nat)
    requires
        underflow_repaired(old, new, j, order as int),
        old.children.len() == old.entries.len() + 1,
        old.entries.len() >= 1,
        old.entries.len() < order,
        0 <= j < old.children.len(),
        order >= 3,
        d > 0,
        forall|i: int| 0 <= i < old.children.len() ==> node_ok(#[trigger] old.children[i]),
        forall|i: int| 0 <= i < old.children.len() && i != j ==> filled(#[trigger] old.children[i], (d - 1) as nat, order, (order - 1) as nat, false),
        filled_but_one(old.children[j], (d - 1) as nat, order),
    ensures
        filled(new, d, order, (order - 1) as nat, true),
        new.entries.len() + 1 >= old.entries.len(),
        new.entries.len() <= old.entries.len(),
{
    let min = order / 2 + order % 2;
    assert(min == (order + 1) / 2);
    let c = old.children[j];
    let e = (d - 1) as nat;
    let top = (order - 1) as nat;
    assert forall|i: int| 0 <= i < old.children.len() implies (#[trigger] old.children[i]).children.len() == 0 <==> e == 0 by {
        assert(filled(old.children[i], e, order, top, i == j));
    }
    if !(min > 0 && c.entries.len() < min - 1) {
        assert(filled(c, e, order, top, false));
        assert forall|i: int| 0 <= i < new.children.len() implies filled(#[trigger] new.children[i], e, order, top, false) by {
            assert(new.children[i] == old.children[i]);
        }
    } else if j > 0 && old.children[j - 1].entries.len() >= min && kinds_match(old, j - 1, j) {
        let s = j - 1;
        let l = old.children[s];
        let l2 = new.children[s];
        let c2 = new.children[j];
        assert(filled(l, e, order, top, false));
        if e > 0 {
            assert(l.children.len() == l.entries.len() + 1);
            assert forall|i: int| 0 <= i < l2.children.len() implies filled(#[trigger] l2.children[i], (e - 1) as nat, order, top, false) by {
                assert(l2.children[i] == l.children[i]);
            }
            assert forall|i: int| 0 <= i < c2.children.len() implies filled(#[trigger] c2.children[i], (e - 1) as nat, order, top, false) by {
                if i == 0 {
                    assert(c2.children[0] == l.children[l.children.len() - 1]);
                } else {
                    assert(c2.children[i] == c.children[i - 1]);
                }
            }
        }
        assert(filled(l2, e, order, top, false));
        assert(filled(c2, e, order, top, false));
        assert forall|i: int| 0 <= i < new.children.len() implies filled(#[trigger] new.children[i], e, order, top, false) by {
            if i != s && i != j {
                assert(new.children[i] == old.children[i]);
            }
        }
    } else if j + 1 < old.children.len() && old.children[j + 1].entries.len() >= min && kinds_match(old, j, j + 1) {
        let r = old.children[j + 1];
        let r2 = new.children[j + 1];
        let c2 = new.children[j];
        assert(filled(r, e, order, top, false));
        if e > 0 {
            assert(r.children.len() == r.entries.len() + 1);
            assert forall|i: int| 0 <= i < r2.children.len() implies filled(#[trigger] r2.children[i], (e - 1) as nat, order, top, false) by {
                assert(r2.children[i] == r.children[i + 1]);
            }
            assert forall|i: int| 0 <= i < c2.children.len() implies filled(#[trigger] c2.children[i], (e - 1) as nat, order, top, false) by {
                if i < c.children.len() {
                    assert(c2.children[i] == c.children[i]);
                } else {
                    assert(c2.children[i] == r.children[0]);
                }
            }
        }
        assert(filled(r2, e, order, top, false));
        assert(filled(c2, e, order, top, false));
        assert forall|i: int| 0 <= i < new.children.len() implies filled(#[trigger] new.children[i], e, order, top, false) by {
            if i != j && i != j + 1 {
                assert(new.children[i] == old.children[i]);
            }
        }
    } else if j > 0 && kinds_match(old, j - 1, j) {
        let s = j - 1;
        let l = old.children[s];
        let g = new.children[s];
        assert(filled(l, e, order, top, false));
        if e > 0 {
            assert forall|i: int| 0 <= i < g.children.len() implies filled(#[trigger] g.children[i], (e - 1) as nat, order, top, false) by {
                if i < l.children.len() {
                    assert(g.children[i] == l.children[i]);
                } else {
                    assert(g.children[i] == c.children[i - l.children.len()]);
                }
            }
        }
        assert(filled(g, e, order, top, false));
        assert forall|i: int| 0 <= i < new.children.len() implies filled(#[trigger] new.children[i], e, order, top, false) by {
            if i < s {
                assert(new.children[i] == old.children[i]);
            } else if i > s {
                assert(new.children[i] == old.children[i + 1]);
            }
        }
    } else {
        assert(j + 1 < old.children.len() && kinds_match(old, j, j + 1));
        let r = old.children[j + 1];
        let g = new.children[j];
        assert(filled(r, e, order, top, false));
        if e > 0 {
            assert forall|i: int| 0 <= i < g.children.len() implies filled(#[trigger] g.children[i], (e - 1) as nat, order, top, false) by {
                if i < c.children.len() {
                    assert(g.children[i] == c.children[i]);
                } else {
                    assert(g.children[i] == r.children[i - c.children.len()]);
                }
            }
        }
        assert(filled(g, e, order, top, false));
        assert forall|i: int| 0 <= i < new.children.len() implies filled(#[trigger] new.children[i], e, order, top, false) by {
            if i < j {
                assert(new.children[i] == old.children[i]);
            } else if i > j {
                assert(new.children[i] == old.children[i + 1]);
            }
        }
    }
}

/// Repairs subtree `j` of `n` when it holds too few entries for a B-tree of order `order`
/// (fewer than half of `order`, rounded up, less one): it borrows an entry through `n`
/// from its left sibling, else from its right sibling, when that sibling can spare one;
/// else it merges with its left sibling, else with its right one.
fn solve_underflow<K, V>(n: &mut BNode<K, V>, j: usize, order: usize, Ghost(d): Ghost<nat>)
    requires
        old(n).children.len() == old(n).entries.len() + 1,
        j < old(n).children.len(),
        forall|i: int| 0 <= i < old(n).children.len() ==> shape_ok(#[trigger] old(n).children[i]),
    ensures
        shape_ok(*final(n)),
        flat(*final(n)) == flat(*old(n)),
        underflow_repaired(*old(n), *final(n), j as int, order as int),
        order >= 3 && d > 0 && old(n).entries.len() >= 1 && old(n).entries.len() < order && (forall|i: int|
            0 <= i < old(n).children.len() && i != j ==> filled(#[trigger] old(n).children[i], (d - 1) as nat, order as nat, (order - 1) as nat, false))
            && filled_but_one(old(n).children[j as int], (d - 1) as nat, order as nat) ==> filled(*final(n), d, order as nat, (order - 1) as nat, true)
            && final(n).entries.len() + 1 >= old(n).entries.len() && final(n).entries.len() <= old(n).entries.len(),
{
    let ghost n0 = *n;
    let min_fill = order / 2 + order % 2;
    if min_fill > 0 && n.children[j].entries.len() < min_fill - 1 {
        if j > 0 && n.children[j - 1].entries.len() >= min_fill && same_kind(n, j - 1, j) {
            borrow_from_left(n, j - 1);
        } else if j + 1 < n.children.len() && n.children[j + 1].entries.len() >= min_fill && same_kind(n, j, j + 1) {
            borrow_from_right(n, j);
        } else if j > 0 && same_kind(n, j - 1, j) {
            merge_at(n, j - 1);
        } else if j + 1 < n.children.len() && same_kind(n, j, j + 1) {
            merge_at(n, j);
        }
    }
    proof {
        if order >= 3 && d > 0 && n0.entries.len() >= 1 && n0.entries.len() < order && (forall|i: int|
            0 <= i < n0.children.len() && i != j ==> filled(#[trigger] n0.children[i], (d - 1) as nat, order as nat, (order - 1) as nat, false))
            && filled_but_one(n0.children[j as int], (d - 1) as nat, order as nat) {
            assert forall|i: int| 0 <= i < n0.children.len() implies node_ok(#[trigger] n0.children[i]) by {
                assert(shape_ok(n0.children[i]));
            }
            lemma_underflow_filled(n0, *n, j as int, order as nat, d);
        }
    }
}

/// Dropping entry `j` of an inner node together with an empty subtree after it removes that
/// entry from the node's entries.
proof fn lemma_drop_entry<K, V>(n: BNode<K, V>, n2: BNode<K, V>, j: int)
    requires
        n.children.len() == n.entries.len() + 1,
        0 <= j < n.entries.len(),
        n2.entries@ == n.entries@.remove(j),
        n2.children@ == n.children@.remove(j + 1),
        flat(n.children[j + 1]).len() == 0,
    ensures
        n2.children.len() == n2.entries.len() + 1,
        flat(n2) == flat(n).remove(before(n, 2 * j + 1).len() as int),
        flat(n)[before(n, 2 * j + 1).len() as int] == n.entries[j],
{
    let len = parts(n).len() as int;
    lemma_entry_at(n, j);
    let expect = parts(n).subrange(0, 2 * j + 1) + parts(n).subrange(2 * j + 3, len);
    assert(parts(n2) =~= expect) by {
        assert forall|i: int| 0 <= i < parts(n2).len() implies parts(n2)[i] == expect[i] by {
            if i <= 2 * j {
                if i % 2 == 0 {
                    assert(i / 2 <= j);
                } else {
                    assert(i / 2 < j);
                }
            } else {
                assert((i + 2) / 2 == i / 2 + 1);
                assert((i + 2) % 2 == i % 2);
            }
        }
    }
    lemma_flatten_concat(parts(n).subrange(0, 2 * j + 1), parts(n).subrange(2 * j + 3, len));
    lemma_part_at(n, 2 * j + 1);
    lemma_part_at(n, 2 * j + 2);
    lemma_flatten_split(parts(n), 2 * j + 1, 2 * j + 3);
    assert(parts(n).subrange(2 * j + 1, 2 * j + 3) =~= seq![parts(n)[2 * j + 1], parts(n)[2 * j + 2]]);
    lemma_flatten_small(parts(n)[2 * j + 1], parts(n)[2 * j + 2], parts(n)[2 * j + 2]);
    assert(flat(n.children[j + 1]) =~= Seq::<Entry<K, V>>::empty());
    let b = parts(n).subrange(0, 2 * j + 1).flatten();
    let a = parts(n).subrange(2 * j + 3, len).flatten();
    assert(flat(n) =~= b + seq![n.entries[j]] + a);
    assert(flat(n2) =~= flat(n).remove(b.len() as int));
}

/// Removes the entry with the smallest key from the tree rooted at `n`, which holds some,
/// repairing subtrees left too small on the way back up.
fn remove_min_rec<K, V>(n: &mut BNode<K, V>, order: usize, Ghost(d): Ghost<nat>) -> (r: Entry<K, V>)
    requires
        shape_ok(*old(n)),
        flat(*old(n)).len() > 0,
    ensures
        shape_ok(*final(n)),
        r == flat(*old(n))[0],
        flat(*final(n)) == flat(*old(n)).drop_first(),
        order >= 3 && filled(*old(n), d, order as nat, (order - 1) as nat, false) ==> filled_but_one(*final(n), d, order as nat),
    decreases *old(n),
{
    let ghost n0 = *n;
    let ghost hyp = order >= 3 && filled(n0, d, order as nat, (order - 1) as nat, false);
    if n.children.len() == 0 {
        proof {
            lemma_leaf_flat(n0);
        }
        let e = n.entries.remove(0);
        proof {
            lemma_leaf_flat(*n);
            assert(flat(*n) =~= flat(n0).drop_first());
        }
        e
    } else if has_entries(&n.children[0]) {
        let e = remove_min_rec(&mut n.children[0], order, Ghost((d - 1) as nat));
        proof {
            if hyp {
                assert(filled(n0.children[0], (d - 1) as nat, order as nat, (order - 1) as nat, false));
                assert forall|i: int| 0 <= i < n.children.len() && i != 0 implies filled(#[trigger] n.children[i], (d - 1) as nat, order as nat, (order - 1) as nat, false) by {
                    assert(n.children[i] == n0.children[i]);
                }
            }
        }
        proof {
            lemma_replace_child(n0, *n, 0, n.children[0]);
            assert(parts(n0).subrange(0, 0) =~= Seq::<Seq<Entry<K, V>>>::empty());
            assert(before(n0, 0) =~= Seq::<Entry<K, V>>::empty());
            assert(flat(*n) =~= flat(n0).drop_first());
            assert forall|i: int| 0 <= i < n.children.len() implies shape_ok(#[trigger] n.children[i]) by {
                if i != 0 {
                    assert(n.children[i] == n0.children[i]);
                }
            }
        }
        solve_underflow(n, 0, order, Ghost(d));
        e
    } else {
        proof {
            if hyp {
                assert(filled(n0.children[0], (d - 1) as nat, order as nat, (order - 1) as nat, false));
                assert(shape_ok(n0.children[0]));
                lemma_entry_at(n0.children[0], 0);
            }
            lemma_part_at(n0, 0);
            lemma_at_part(n0, 0);
            assert(parts(n0).subrange(0, 0) =~= Seq::<Seq<Entry<K, V>>>::empty());
            assert(before(n0, 0) =~= Seq::<Entry<K, V>>::empty());
            if n0.entries.len() == 0 {
                assert(parts(n0).subrange(1, 1) =~= Seq::<Seq<Entry<K, V>>>::empty());
                assert(after(n0, 0) =~= Seq::<Entry<K, V>>::empty());
            }
        }
        let e = n.entries.remove(0);
        let c = n.children.remove(0);
        proof {
            lemma_pop_front_flat(n0, *n);
            assert(flat(n0) =~= seq![e] + flat(*n));
            assert(flat(*n) =~= flat(n0).drop_first());
            assert forall|i: int| 0 <= i < n.children.len() implies shape_ok(#[trigger] n.children[i]) by {
                assert(n.children[i] == n0.children[i + 1]);
            }
        }
        e
    }
}

/// Removes the entry for `key` from the tree rooted at `n`, repairing subtrees left too
/// small on the way back up; an entry of an inner node gives way to its successor, the
/// smallest entry of the subtree after it. Returns the removed value, if any, and where the
/// entry stood among the tree's entries.
#[verifier::rlimit(40)]
fn remove_rec<K: MapKey, V>(n: &mut BNode<K, V>, key: &K, order: usize, Ghost(d): Ghost<nat>, Ghost(root): Ghost<bool>) -> (r: (
    Option<V>,
    Ghost<int>,
))
    requires
        shape_ok(*old(n)),
        sorted_entries(flat(*old(n))),
    ensures
        shape_ok(*final(n)),
        order >= 3 && old(n).entries.len() >= 1 && filled(*old(n), d, order as nat, (order - 1) as nat, root) ==> filled(
            *final(n),
            d,
            order as nat,
            (order - 1) as nat,
            true,
        ) && (!root ==> final(n).entries.len() + 2 >= (order + 1) / 2),
        r.0 is Some ==> has_key(flat(*old(n)), key@) && r.1@ == key_index(flat(*old(n)), key@) && r.0 == Some(
            flat(*old(n))[r.1@].value,
        ) && flat(*final(n)) == flat(*old(n)).remove(r.1@),
        r.0 is None ==> !has_key(flat(*old(n)), key@) && flat(*final(n)) == flat(*old(n)),
    decreases *old(n),
{
    let ghost n0 = *n;
    let ghost hyp = order >= 3 && n0.entries.len() >= 1 && filled(n0, d, order as nat, (order - 1) as nat, root);
    let (pos, found) = search(n, key);
    if found {
        proof {
            lemma_entry_at(n0, pos - 1);
            lemma_key_index(flat(n0), before(n0, entry_part(n0, pos - 1)).len() as int);
        }
        if n.children.len() == 0 {
            let e = n.entries.remove(pos - 1);
            proof {
                lemma_leaf_flat(n0);
                lemma_leaf_flat(*n);
                assert(before(n0, pos - 1).len() == pos - 1) by {
                    assert(flat(n0)[before(n0, pos - 1).len() as int] == n0.entries[pos - 1]);
                    lemma_key_index(flat(n0), pos - 1);
                }
            }
            (Some(e.value), Ghost(pos - 1))
        } else if has_entries(&n.children[pos]) {
            let ghost j = pos - 1;
            proof {
                lemma_child_sorted(n0, pos as int);
            }
            proof {
                if hyp {
                    assert(filled(n0.children[pos as int], (d - 1) as nat, order as nat, (order - 1) as nat, false));
                }
            }
            let mut m = remove_min_rec(&mut n.children[pos], order, Ghost((d - 1) as nat));
            let ghost c0 = n0.children[pos as int];
            let ghost c1 = n.children[pos as int];
            let ghost min = m;
            std::mem::swap(&mut m, &mut n.entries[pos - 1]);
            proof {
                assert(flat(c0) =~= seq![min] + flat(c1));
                assert(n.children@ =~= n0.children@.update(pos as int, c1));
                lemma_successor_up(n0, *n, j, min, c1);
                assert forall|i: int| 0 <= i < n.children.len() implies shape_ok(#[trigger] n.children[i]) by {
                    if i != pos {
                        assert(n.children[i] == n0.children[i]);
                    }
                }
                if hyp {
                    assert forall|i: int| 0 <= i < n.children.len() && i != pos implies filled(#[trigger] n.children[i], (d - 1) as nat, order as nat, (order - 1) as nat, false) by {
                        assert(n.children[i] == n0.children[i]);
                    }
                }
            }
            solve_underflow(n, pos, order, Ghost(d));
            (Some(m.value), Ghost(before(n0, 2 * (pos - 1) + 1).len() as int))
        } else {
            proof {
                if hyp {
                    assert(filled(n0.children[pos as int], (d - 1) as nat, order as nat, (order - 1) as nat, false));
                    assert(shape_ok(n0.children[pos as int]));
                    lemma_entry_at(n0.children[pos as int], 0);
                }
            }
            let e = n.entries.remove(pos - 1);
            let c = n.children.remove(pos);
            proof {
                lemma_drop_entry(n0, *n, pos - 1);
                assert forall|i: int| 0 <= i < n.children.len() implies shape_ok(#[trigger] n.children[i]) by {
                    if i < pos {
                        assert(n.children[i] == n0.children[i]);
                    } else {
                        assert(n.children[i] == n0.children[i + 1]);
                    }
                }
            }
            (Some(e.value), Ghost(before(n0, 2 * (pos - 1) + 1).len() as int))
        }
    } else if n.children.len() == 0 {
        proof {
            lemma_leaf_absent(n0, pos as int, key@);
        }
        (None, Ghost(0))
    } else {
        proof {
            lemma_descend(n0, pos as int, key@);
            lemma_mid_key(before(n0, 2 * pos), flat(n0.children[pos as int]), after(n0, 2 * pos), key@);
        }
        proof {
            if hyp {
                assert(filled(n0.children[pos as int], (d - 1) as nat, order as nat, (order - 1) as nat, false));
            }
        }
        let (old, g) = remove_rec(&mut n.children[pos], key, order, Ghost((d - 1) as nat), Ghost(false));
        let ghost b = before(n0, 2 * pos);
        let ghost c0 = n0.children[pos as int];
        proof {
            lemma_replace_child(n0, *n, pos as int, n.children[pos as int]);
            if old is Some {
                lemma_key_index(flat(c0), g@);
                assert(flat(n0)[b.len() + g@] == flat(c0)[g@]);
                assert(flat(*n) =~= flat(n0).remove(b.len() + g@));
            }
            assert forall|i: int| 0 <= i < n.children.len() implies shape_ok(#[trigger] n.children[i]) by {
                if i != pos {
                    assert(n.children[i] == n0.children[i]);
                }
            }
            if hyp {
                assert forall|i: int| 0 <= i < n.children.len() && i != pos implies filled(#[trigger] n.children[i], (d - 1) as nat, order as nat, (order - 1) as nat, false) by {
                    assert(n.children[i] == n0.children[i]);
                }
            }
        }
        solve_underflow(n, pos, order, Ghost(d));
        (old, Ghost(b.len() + g@))
    }
}

/// A sorted run holds as many keys as entries.
proof fn lemma_map_len<K: MapKey, V>(s: Seq<Entry<K, V>>)
    requires
        sorted_entries(s),
    ensures
        entries_map(s).dom().finite(),
        entries_map(s).dom().len() == s.len(),
    decreases s.len(),
{
    if s.len() == 0 {
        assert(entries_map(s).dom() =~= Set::<K::V>::empty());
    } else {
        let p = s.drop_last();
        let last = s.last();
        assert forall|i: int, j: int| 0 <= i < j < p.len() implies key_lt::<K>((#[trigger] p[i]).key@, (#[trigger] p[j]).key@) by {
            assert(p[i] == s[i] && p[j] == s[j]);
        }
        lemma_map_len(p);
        assert forall|i: int| 0 <= i < p.len() implies key_lt::<K>((#[trigger] p[i]).key@, last.key@) by {
            assert(p[i] == s[i]);
        }
        assert(splits_at(p, p.len() as int, last.key@));
        lemma_insert_sorted(p, p.len() as int, last);
        assert(p.insert(p.len() as int, last) =~= s);
        lemma_splits_absent(p, p.len() as int, last.key@);
        assert(entries_map(s).dom() =~= entries_map(p).dom().insert(last.key@));
    }
}

/// The keys and values of a run of entries.
pub open spec fn entry_pairs<K, V>(s: Seq<Entry<K, V>>) -> Seq<(K, V)> {
    s.map_values(|e: Entry<K, V>| (e.key, e.value))
}

/// Flattening one more run extends the flattened prefix by that run.
proof fn lemma_flatten_prefix<E>(p: Seq<Seq<E>>, t: int)
    requires
        0 <= t < p.len(),
    ensures
        p.subrange(0, t + 1).flatten() == p.subrange(0, t).flatten() + p[t],
{
    assert(p.subrange(0, t + 1) =~= p.subrange(0, t) + seq![p[t]]);
    lemma_flatten_concat(p.subrange(0, t), seq![p[t]]);
    lemma_flatten_small(p[t], p[t], p[t]);
}

/// Appends references to the keys and values of the tree rooted at `n`, in key order.
fn collect_entries<'a, K, V>(n: &'a BNode<K, V>, out: &mut Vec<(&'a K, &'a V)>)
    requires
        shape_ok(*n),
    ensures
        pairs(final(out)@) == pairs(old(out)@) + entry_pairs(flat(*n)),
    decreases n,
{
    let ghost start = pairs(out@);
    let ghost p = parts(*n);
    let internal = n.children.len() > 0;
    let mut i: usize = 0;
    while i < n.entries.len()
        invariant
            shape_ok(*n),
            p == parts(*n),
            internal == (n.children.len() > 0),
            i <= n.entries.len(),
            pairs(out@) == start + entry_pairs(p.subrange(0, if internal { 2 * i } else { i as int }).flatten()),
        decreases n.entries.len() - i,
    {
        if internal {
            proof {
                lemma_part_at(*n, 2 * i as int);
                lemma_part_at(*n, 2 * i + 1);
                lemma_flatten_prefix(p, 2 * i as int);
                lemma_flatten_prefix(p, 2 * i + 1);
            }
            let ghost before_child = out@;
            collect_entries(&n.children[i], out);
            let ghost mid = out@;
            out.push((&n.entries[i].key, &n.entries[i].value));
            proof {
                assert(pairs(out@) =~= pairs(mid) + seq![(n.entries[i as int].key, n.entries[i as int].value)]);
                assert(entry_pairs(p.subrange(0, 2 * i + 2).flatten()) =~= entry_pairs(p.subrange(0, 2 * i as int).flatten())
                    + entry_pairs(flat(n.children[i as int])) + seq![(n.entries[i as int].key, n.entries[i as int].value)]);
            }
        } else {
            proof {
                lemma_part_at(*n, i as int);
                lemma_flatten_prefix(p, i as int);
            }
            let ghost mid = out@;
            out.push((&n.entries[i].key, &n.entries[i].value));
            proof {
                assert(pairs(out@) =~= pairs(mid) + seq![(n.entries[i as int].key, n.entries[i as int].value)]);
                assert(entry_pairs(p.subrange(0, i + 1).flatten()) =~= entry_pairs(p.subrange(0, i as int).flatten())
                    + seq![(n.entries[i as int].key, n.entries[i as int].value)]);
            }
        }
        i = i + 1;
    }
    if internal {
        proof {
            lemma_part_at(*n, 2 * i as int);
            lemma_flatten_prefix(p, 2 * i as int);
        }
        collect_entries(&n.children[i], out);
        proof {
            assert(p.subrange(0, 2 * i + 1) =~= p);
            assert(entry_pairs(p.subrange(0, 2 * i + 1).flatten()) =~= entry_pairs(p.subrange(0, 2 * i as int).flatten())
                + entry_pairs(flat(n.children[i as int])));
        }
    } else {
        proof {
            assert(p.subrange(0, i as int) =~= p);
        }
    }
}

/// An iterator over the entries of a B-tree map in increasing key order.
pub struct Iter<'a, K, V> {
    items: Vec<(&'a K, &'a V)>,
    pos: usize,
}

impl<'a, K, V> Iter<'a, K, V> {
    /// The entries still to hand out.
    pub closed spec fn remaining(&self) -> Seq<(K, V)> {
        if self.pos <= self.items@.len() {
            pairs(self.items@).skip(self.pos as int)
        } else {
            Seq::empty()
        }
    }

    /// Starts at the smallest key of `map`.
    pub fn new<const M: usize>(map: &'a BTreeMap<K, V, M>) -> (it: Self)
        where K: MapKey,
        requires
            map.wf(),
        ensures
            it.remaining() == entry_pairs(map.items()),
    {
        let mut items = Vec::new();
        match &map.root {
            Some(root) => {
                collect_entries(root, &mut items);
            },
            None => {},
        }
        proof {
            assert(pairs(Seq::<(&'a K, &'a V)>::empty()) =~= Seq::<(K, V)>::empty());
            assert(entry_pairs(map.items()) =~= pairs(items@).skip(0));
        }
        Iter { items, pos: 0 }
    }

    /// Hands out the next entry, if any.
    pub fn next(&mut self) -> (r: Option<(&'a K, &'a V)>)
        ensures
            old(self).remaining().len() == 0 ==> r is None && final(self).remaining() == old(self).remaining(),
            old(self).remaining().len() > 0 ==> (r matches Some(p) && (*p.0, *p.1) == old(self).remaining()[0]
                && final(self).remaining() == old(self).remaining().drop_first()),
    {
        if self.pos < self.items.len() {
            let p = self.items[self.pos];
            self.pos = self.pos + 1;
            proof {
                assert(old(self).remaining()[0] == pairs(self.items@)[self.pos - 1]);
                assert(self.remaining() =~= old(self).remaining().drop_first());
            }
            Some(p)
        } else {
            None
        }
    }
}

/// An ordered map kept in a B-tree of order `M`: a node holds at most `M - 1` entries.
pub struct BTreeMap<K, V, const M: usize> {
    root: Option<BNode<K, V>>,
    len: usize,
}

/// The entries of a possibly empty tree, in key order.
pub open spec fn root_flat<K, V>(root: Option<BNode<K, V>>) -> Seq<Entry<K, V>> {
    match root {
        Some(r) => flat(r),
        None => Seq::empty(),
    }
}

impl<K: MapKey, V, const M: usize> View for BTreeMap<K, V, M> {
    type V = Map<K::V, V>;

    closed spec fn view(&self) -> Map<K::V, V> {
        entries_map(root_flat(self.root))
    }
}

impl<K: MapKey, V, const M: usize> BTreeMap<K, V, M> {
    /// Every node has no subtree or one more than entries, the keys increase from left to
    /// right, and the recorded length counts the entries.
    pub closed spec fn wf(&self) -> bool {
        &&& match self.root {
            Some(r) => shape_ok(r),
            None => true,
        }
        &&& sorted_entries(root_flat(self.root))
        &&& self.len == root_flat(self.root).len()
    }

    /// The map holds finitely many entries.
    pub proof fn lemma_view_finite(&self)
        requires
            self.wf(),
        ensures
            self@.dom().finite(),
    {
        lemma_map_len(root_flat(self.root));
    }

    /// The entries in increasing key order.
    pub closed spec fn items(&self) -> Seq<Entry<K, V>> {
        root_flat(self.root)
    }

    /// Every leaf lies as many levels below the root, and every node holds fewer than `M`
    /// entries and, but for the root, at least `(M + 1) / 2 - 1`; the root holds at least
    /// one.
    pub closed spec fn is_balanced(&self) -> bool {
        match self.root {
            Some(r) => filled(r, levels(r), M as nat, (M - 1) as nat, true) && r.entries.len() > 0,
            None => true,
        }
    }

    /// Creates an empty map.
    pub fn new() -> (m: Self)
        ensures
            m.wf(),
            m.is_balanced(),
            m@ == Map::<K::V, V>::empty(),
    {
        let m = BTreeMap { root: None, len: 0 };
        proof {
            assert(m@ =~= Map::<K::V, V>::empty());
        }
        m
    }

    /// The number of entries.
    pub fn len(&self) -> (n: usize)
        requires
            self.wf(),
        ensures
            n == self@.len(),
    {
        proof {
            lemma_map_len(root_flat(self.root));
        }
        self.len
    }

    /// Whether the map has no entry.
    pub fn is_empty(&self) -> (b: bool)
        requires
            self.wf(),
        ensures
            b == (self@.len() == 0),
    {
        self.len() == 0
    }

    /// The value stored under `key`, if any.
    pub fn get(&self, key: &K) -> (r: Option<&V>)
        requires
            self.wf(),
        ensures
            match r {
                Some(v) => self@.dom().contains(key@) && *v == self@[key@],
                None => !self@.dom().contains(key@),
            },
    {
        match &self.root {
            Some(root) => get_rec(root, key),
            None => None,
        }
    }

    /// A mutable reference to the value stored under `key`, if any.
    pub fn get_mut(&mut self, key: &K) -> (r: Option<&mut V>)
        requires
            old(self).wf(),
        ensures
            final(self).wf(),
            old(self).is_balanced() ==> final(self).is_balanced(),
            match r {
                Some(v) => old(self)@.dom().contains(key@) && *v == old(self)@[key@] && final(self)@ == old(self)@.insert(
                    key@,
                    *final(v),
                ),
                None => !old(self)@.dom().contains(key@) && final(self)@ == old(self)@,
            },
    {
        if self.get(key).is_none() {
            return None;
        }
        match &mut self.root {
            Some(root) => {
                proof {
                    lemma_value_set(*root, key@);
                    let r0 = *root;
                    assert forall|nn: BNode<K, V>, v: V| #[trigger] value_set(r0, nn, key@, v) implies levels(nn) == levels(r0) && (
                    filled(r0, levels(r0), M as nat, (M - 1) as nat, true) ==> filled(nn, levels(nn), M as nat, (M - 1) as nat, true))
                        && nn.entries.len() == r0.entries.len() by {
                        lemma_value_set_filled(r0, nn, key@, v, levels(r0), M as nat, (M - 1) as nat, true);
                    }
                }
                Some(get_mut_rec(root, key))
            },
            None => None,
        }
    }

    /// Stores `value` under `key`, returning the value it replaced, if any. A node that
    /// comes to hold `M` entries is split, the root too.
    pub fn insert(&mut self, key: K, value: V) -> (r: Option<V>)
        requires
            old(self).wf(),
            old(self)@.len() < usize::MAX,
            M >= 3,
        ensures
            final(self).wf(),
            old(self).is_balanced() ==> final(self).is_balanced(),
            final(self)@ == old(self)@.insert(key@, value),
            old(self)@.dom().contains(key@) ==> r == Some(old(self)@[key@]),
            !old(self)@.dom().contains(key@) ==> r is None,
    {
        let ghost s0 = root_flat(self.root);
        let ghost e = Entry { key, value };
        proof {
            lemma_map_len(s0);
        }
        match self.root.take() {
            None => {
                let mut entries = Vec::new();
                entries.push(Entry { key, value });
                let node = BNode { entries, children: Vec::new() };
                proof {
                    lemma_leaf_flat(node);
                    assert(flat(node) =~= s0.insert(0, e));
                    lemma_insert_sorted(s0, 0, e);
                }
                self.root = Some(node);
                self.len = 1;
                None
            },
            Some(mut root) => {
                        let ghost depth = levels(root);
                let ghost root0 = root;
                let (old, g) = insert_rec(&mut root, key, value, M, Ghost(depth), Ghost(true));
                let ghost root1 = root;
                proof {
                    if old is None {
                        lemma_insert_sorted(s0, g@, e);
                    } else {
                        lemma_key_index(s0, g@);
                        lemma_update_sorted(s0, g@, e);
                    }
                }
                if root.entries.len() >= M {
                    let (l, m, r) = split(root);
                    let mut entries = Vec::new();
                    entries.push(m);
                    let mut children = Vec::new();
                    children.push(l);
                    children.push(r);
                    let top = BNode { entries, children };
                    proof {
                        assert(top.entries@ =~= seq![m]);
                        assert(top.children@ =~= seq![l, r]);
                        lemma_two_children(top, l, m, r);
                        if filled(root0, depth, M as nat, (M - 1) as nat, true) {
                            lemma_split_filled(root1, l, r, depth, M as nat, true);
                            assert(filled(top.children[0], depth, M as nat, (M - 1) as nat, false));
                            assert(filled(top.children[1], depth, M as nat, (M - 1) as nat, false));
                            assert(filled(top, depth + 1, M as nat, (M - 1) as nat, true));
                            lemma_filled_levels(top, depth + 1, M as nat, (M - 1) as nat, true);
                        }
                    }
                    self.root = Some(top);
                } else {
                    proof {
                        if filled(root0, depth, M as nat, (M - 1) as nat, true) {
                            assert(filled(root, depth, M as nat, (M - 1) as nat, true));
                            lemma_filled_levels(root, depth, M as nat, (M - 1) as nat, true);
                        }
                    }
                    self.root = Some(root);
                }
                if old.is_none() {
                    self.len = self.len + 1;
                }
                old
            },
        }
    }

    /// A mutable reference to the value stored under `key`, after inserting `default`
    /// under it when the key is absent.
    pub fn get_mut_or_insert(&mut self, key: K, default: V) -> (r: &mut V)
        requires
            old(self).wf(),
            old(self)@.len() < usize::MAX,
            M >= 3,
        ensures
            final(self).wf(),
            old(self).is_balanced() ==> final(self).is_balanced(),
            *r == if old(self)@.dom().contains(key@) {
                old(self)@[key@]
            } else {
                default
            },
            final(self)@ == old(self)@.insert(key@, *final(r)),
    {
        let probe = key.duplicate();
        if self.get(&probe).is_none() {
            self.insert(key, default);
        }
        self.get_mut(&probe).unwrap()
    }

    /// An iterator over the entries in increasing key order.
    pub fn iter(&self) -> (it: Iter<'_, K, V>)
        requires
            self.wf(),
        ensures
            it.remaining() == entry_pairs(self.items()),
            sorted_entries(self.items()),
    {
        Iter::new(self)
    }

    /// Removes the entry for `key`, returning its value, if any. A root left without
    /// entries gives way to its only subtree.
    pub fn remove(&mut self, key: &K) -> (r: Option<V>)
        requires
            old(self).wf(),
        ensures
            final(self).wf(),
            final(self)@ == old(self)@.remove(key@),
            old(self)@.dom().contains(key@) ==> r == Some(old(self)@[key@]),
            !old(self)@.dom().contains(key@) ==> r is None,
            old(self).is_balanced() && M >= 3 ==> final(self).is_balanced(),
    {
        let ghost s0 = root_flat(self.root);
        let ghost bal = self.is_balanced() && M >= 3;
        match self.root.take() {
            None => {
                proof {
                    assert(entries_map(s0).remove(key@) =~= entries_map(s0));
                }
                None
            },
            Some(mut root) => {
                let ghost depth = levels(root);
                let (old, g) = remove_rec(&mut root, key, M, Ghost(depth), Ghost(true));
                proof {
                    if old is Some {
                        lemma_key_index(s0, g@);
                        lemma_remove_sorted(s0, g@);
                    } else {
                        assert(!entries_map(s0).dom().contains(key@));
                        assert(entries_map(s0).remove(key@) =~= entries_map(s0));
                    }
                }
                if root.entries.len() == 0 {
                    if root.children.len() == 0 {
                        proof {
                            lemma_leaf_flat(root);
                            assert(root_flat(None::<BNode<K, V>>) =~= flat(root));
                        }
                        self.root = None;
                    } else {
                        let ghost r0 = root;
                        let child = root.children.remove(0);
                        proof {
                            if bal {
                                assert(filled(r0.children[0], (depth - 1) as nat, M as nat, (M - 1) as nat, false));
                                assert(filled(child, (depth - 1) as nat, M as nat, (M - 1) as nat, true));
                                lemma_filled_levels(child, (depth - 1) as nat, M as nat, (M - 1) as nat, true);
                            }
                        }
                        proof {
                            lemma_part_at(r0, 0);
                            lemma_at_part(r0, 0);
                            assert(parts(r0).subrange(0, 0) =~= Seq::<Seq<Entry<K, V>>>::empty());
                            assert(parts(r0).subrange(1, 1) =~= Seq::<Seq<Entry<K, V>>>::empty());
                            assert(flat(r0) =~= flat(child));
                        }
                        self.root = Some(child);
                    }
                } else {
                    proof {
                        if bal {
                            lemma_filled_levels(root, depth, M as nat, (M - 1) as nat, true);
                        }
                    }
                    self.root = Some(root);
                }
                if old.is_some() {
                    self.len = self.len - 1;
                }
                old
            },
        }
    }
}

/// A root made of one entry between two subtrees holds their entries around it.
proof fn lemma_two_children<K, V>(top: BNode<K, V>, l: BNode<K, V>, m: Entry<K, V>, r: BNode<K, V>)
    requires
        top.entries@ == seq![m],
        top.children@ == seq![l, r],
    ensures
        flat(top) == flat(l) + seq![m] + flat(r),
{
    lemma_part_at(top, 0);
    lemma_part_at(top, 1);
    lemma_part_at(top, 2);
    assert(parts(top) =~= seq![flat(l), seq![m], flat(r)]);
    lemma_flatten_small(flat(l), seq![m], flat(r));
}

impl<K: MapKey, V, const M: usize> Default for BTreeMap<K, V, M> {
    fn default() -> (m: Self)
        ensures
            m.wf(),
            m.is_balanced(),
            m@ == Map::<K::V, V>::empty(),
    {
        BTreeMap::new()
    }
}

impl<K: MapKey, V, const M: usize> OrderedMap<K, V> for BTreeMap<K, V, M> {
    open spec fn contents(&self) -> Map<K::V, V> {
        self@
    }

    open spec fn valid(&self) -> bool {
        self.wf()
    }

    open spec fn can_grow(&self) -> bool {
        self@.len() < usize::MAX && M >= 3
    }

    fn get(&self, key: &K) -> (r: Option<&V>) {
        BTreeMap::<K, V, M>::get(self, key)
    }

    fn get_mut(&mut self, key: &K) -> (r: Option<&mut V>) {
        BTreeMap::<K, V, M>::get_mut(self, key)
    }

    fn insert(&mut self, key: K, value: V) -> (r: Option<V>) {
        BTreeMap::<K, V, M>::insert(self, key, value)
    }

    fn get_mut_or_insert(&mut self, key: K, default: V) -> (r: &mut V) {
        BTreeMap::<K, V, M>::get_mut_or_insert(self, key, default)
    }

    fn remove(&mut self, key: &K) -> (r: Option<V>) {
        BTreeMap::<K, V, M>::remove(self, key)
    }

    fn len(&self) -> (n: usize) {
        BTreeMap::<K, V, M>::len(self)
    }
}

} // verus!
