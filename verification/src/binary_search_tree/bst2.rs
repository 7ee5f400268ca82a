//! An ordered map kept in a binary search tree whose nodes count the nodes below them.

use vstd::prelude::*;
use super::{MapKey, OrderedMap, Cmp, key_lt, lemma_lt_transitive, lemma_lt_trichotomy};

verus! {

/// A node of the tree: an entry, its two subtrees and the number of nodes it roots.
pub struct Node<K, V> {
    pub left: Option<Box<Node<K, V>>>,
    pub right: Option<Box<Node<K, V>>>,
    pub key: K,
    pub value: V,
    pub size: usize,
}

/// The entries of the tree hanging from `link`, keyed by the views of their keys.
pub open spec fn link_map<K: View, V>(link: Option<Box<Node<K, V>>>) -> Map<K::V, V>
    decreases link,
{
    match link {
        None => Map::empty(),
        Some(n) => link_map(n.left).union_prefer_right(link_map(n.right)).insert(n.key@, n.value),
    }
}

/// The number of nodes of the tree hanging from `link`.
pub open spec fn link_count<K, V>(link: Option<Box<Node<K, V>>>) -> nat
    decreases link,
{
    match link {
        None => 0,
        Some(n) => link_count(n.left) + link_count(n.right) + 1,
    }
}

/// Every key of a left subtree comes before its node's key, every key of a right subtree
/// after it, and every node records the number of nodes it roots.
pub open spec fn link_wf<K: MapKey, V>(link: Option<Box<Node<K, V>>>) -> bool
    decreases link,
{
    match link {
        None => true,
        Some(n) => {
            &&& link_wf(n.left)
            &&& link_wf(n.right)
            &&& n.size == link_count(n.left) + link_count(n.right) + 1
            &&& forall|k: K::V| #[trigger] link_map(n.left).dom().contains(k) ==> key_lt::<K>(k, n.key@)
            &&& forall|k: K::V| #[trigger] link_map(n.right).dom().contains(k) ==> key_lt::<K>(n.key@, k)
        },
    }
}

/// A well-formed tree holds exactly as many entries as it has nodes.
pub proof fn lemma_link_len<K: MapKey, V>(link: Option<Box<Node<K, V>>>)
    requires
        link_wf(link),
    ensures
        link_map(link).dom().finite(),
        link_map(link).dom().len() == link_count(link),
    decreases link,
{
    match link {
        None => {
            assert(link_map(link).dom() =~= Set::empty());
        },
        Some(n) => {
            lemma_link_len(n.left);
            lemma_link_len(n.right);
            let l = link_map(n.left).dom();
            let r = link_map(n.right).dom();
            assert(l.disjoint(r)) by {
                assert forall|k: K::V| l.contains(k) implies !r.contains(k) by {
                    if r.contains(k) {
                        lemma_lt_trichotomy::<K>(k, n.key@);
                    }
                }
            }
            vstd::set_lib::lemma_set_disjoint_lens(l, r);
            let u = link_map(n.left).union_prefer_right(link_map(n.right));
            assert(u.dom() =~= l + r);
            assert(!u.dom().contains(n.key@));
            assert(link_map(link).dom() =~= u.dom().insert(n.key@));
        },
    }
}

/// The count recorded at the root of a well-formed tree is its number of nodes.
pub proof fn lemma_size_is_count<K: MapKey, V>(link: Option<Box<Node<K, V>>>)
    requires
        link_wf(link),
    ensures
        link matches Some(n) ==> n.size == link_count(link),
{
}

/// Looking a key up in a node: the node's own entry, or the side its order points to.
pub proof fn lemma_lookup<K: MapKey, V>(n: Node<K, V>, k: K::V)
    requires
        link_wf(Some(Box::new(n))),
    ensures
        k == n.key@ ==> link_map(Some(Box::new(n))).dom().contains(k) && link_map(Some(Box::new(n)))[k] == n.value,
        key_lt::<K>(k, n.key@) ==> !link_map(n.right).dom().contains(k) && (link_map(Some(Box::new(n))).dom().contains(k)
            <==> link_map(n.left).dom().contains(k)) && (link_map(n.left).dom().contains(k) ==> link_map(
            Some(Box::new(n)),
        )[k] == link_map(n.left)[k]),
        key_lt::<K>(n.key@, k) ==> !link_map(n.left).dom().contains(k) && (link_map(Some(Box::new(n))).dom().contains(k)
            <==> link_map(n.right).dom().contains(k)) && (link_map(n.right).dom().contains(k) ==> link_map(
            Some(Box::new(n)),
        )[k] == link_map(n.right)[k]),
{
    if key_lt::<K>(k, n.key@) && link_map(n.right).dom().contains(k) {
        lemma_lt_trichotomy::<K>(k, n.key@);
    }
    if key_lt::<K>(n.key@, k) && link_map(n.left).dom().contains(k) {
        lemma_lt_trichotomy::<K>(k, n.key@);
    }
}

impl<K, V> Node<K, V> {
    /// A node without children holding `key` and `value`.
    pub fn new(key: K, value: V) -> (n: Self)
        ensures
            n.key == key,
            n.value == value,
            n.left is None,
            n.right is None,
            n.size == 1,
    {
        Node { left: None, right: None, key, value, size: 1 }
    }

    /// The number of nodes of the tree hanging from `link`.
    pub fn size(link: &Option<Box<Node<K, V>>>) -> (s: usize)
        ensures
            match link {
                None => s == 0,
                Some(n) => s == n.size,
            },
    {
        match link {
            None => 0,
            Some(node) => node.size,
        }
    }
}

impl<K: MapKey, V> Node<K, V> {
    /// The value stored under `key` in the tree hanging from `link`.
    pub(crate) fn get<'a>(link: &'a Option<Box<Node<K, V>>>, key: &K) -> (r: Option<&'a V>)
        requires
            link_wf(*link),
        ensures
            match r {
                Some(v) => link_map(*link).dom().contains(key@) && *v == link_map(*link)[key@],
                None => !link_map(*link).dom().contains(key@),
            },
        decreases *link,
    {
        match link {
            None => None,
            Some(node) => {
                proof {
                    lemma_lookup::<K, V>(**node, key@);
                }
                match key.compare(&node.key) {
                    Cmp::Less => Self::get(&node.left, key),
                    Cmp::Greater => Self::get(&node.right, key),
                    Cmp::Equal => Some(&node.value),
                }
            },
        }
    }

    /// A mutable reference to the value stored under `key`, if any.
    pub(crate) fn get_mut<'a>(link: &'a mut Option<Box<Node<K, V>>>, key: &K) -> (r: Option<&'a mut V>)
        requires
            link_wf(*old(link)),
        ensures
            link_wf(*final(link)),
            link_count(*final(link)) == link_count(*old(link)),
            match r {
                Some(v) => link_map(*old(link)).dom().contains(key@) && *v == link_map(*old(link))[key@] && link_map(
                    *final(link),
                ) == link_map(*old(link)).insert(key@, *final(v)) && *final(link) == set_value(*old(link), key@, *final(v)),
                None => !link_map(*old(link)).dom().contains(key@) && *final(link) == *old(link),
            },
        decreases *old(link),
    {
        match link {
            None => None,
            Some(node) => {
                proof {
                    lemma_lookup::<K, V>(**node, key@);
                }
                match key.compare(&node.key) {
                    Cmp::Less => Self::get_mut(&mut node.left, key),
                    Cmp::Greater => Self::get_mut(&mut node.right, key),
                    Cmp::Equal => Some(&mut node.value),
                }
            },
        }
    }

    /// Inserts `key` with `value` into the tree hanging from `link`, returning the new root
    /// and the value that `key` held before, if any (its stored key is kept).
    fn insert(link: Option<Box<Node<K, V>>>, key: K, value: V) -> (r: (Box<Node<K, V>>, Option<V>))
        requires
            link_wf(link),
            link_count(link) < usize::MAX,
        ensures
            link_wf(Some(r.0)),
            link_map(Some(r.0)) == link_map(link).insert(key@, value),
            link_map(link).dom().contains(key@) ==> r.1 == Some(link_map(link)[key@]) && link_count(Some(r.0))
                == link_count(link),
            !link_map(link).dom().contains(key@) ==> r.1 is None && link_count(Some(r.0)) == link_count(link) + 1,
        decreases link,
    {
        match link {
            None => {
                let n = Box::new(Node::new(key, value));
                proof {
                    assert(link_map(Some(n)) =~= link_map(link).insert(key@, value));
                }
                (n, None)
            },
            Some(mut node) => {
                let ghost n0 = *node;
                proof {
                    lemma_lookup::<K, V>(n0, key@);
                }
                let old = match key.compare(&node.key) {
                    Cmp::Less => {
                        let (child, old) = Self::insert(node.left.take(), key, value);
                        node.left = Some(child);
                        old
                    },
                    Cmp::Greater => {
                        let (child, old) = Self::insert(node.right.take(), key, value);
                        node.right = Some(child);
                        old
                    },
                    Cmp::Equal => {
                        let mut old = value;
                        std::mem::swap(&mut node.value, &mut old);
                        Some(old)
                    },
                };
                proof {
                    lemma_size_is_count(node.left);
                    lemma_size_is_count(node.right);
                }
                node.size = Self::size(&node.left) + Self::size(&node.right) + 1;
                proof {
                    let m0 = link_map(Some(Box::new(n0)));
                    let m1 = link_map(Some(node));
                    assert forall|k: K::V| #[trigger] link_map(node.left).dom().contains(k) implies key_lt::<K>(k, node.key@) by {
                        if link_map(n0.left).dom().contains(k) {
                        }
                    }
                    assert forall|k: K::V| #[trigger] link_map(node.right).dom().contains(k) implies key_lt::<K>(node.key@, k) by {
                        if link_map(n0.right).dom().contains(k) {
                        }
                    }
                    assert(link_wf(Some(node)));
                    assert forall|k: K::V| #[trigger] m1.dom().contains(k) == m0.insert(key@, value).dom().contains(k) by {
                        lemma_lookup::<K, V>(*node, k);
                        lemma_lookup::<K, V>(n0, k);
                        lemma_lt_trichotomy::<K>(k, n0.key@);
                    }
                    assert forall|k: K::V| #[trigger] m1.dom().contains(k) implies m1[k] == m0.insert(key@, value)[k] by {
                        lemma_lookup::<K, V>(*node, k);
                        lemma_lookup::<K, V>(n0, k);
                        lemma_lt_trichotomy::<K>(k, n0.key@);
                    }
                    assert(m1 =~= m0.insert(key@, value));
                }
                (node, old)
            },
        }
    }

    /// Removes the node with the smallest key from the tree rooted at `node`, returning the
    /// rest of the tree and the removed node.
    fn delete_min(node: Box<Node<K, V>>) -> (r: (Option<Box<Node<K, V>>>, Box<Node<K, V>>))
        requires
            link_wf(Some(node)),
        ensures
            link_wf(r.0),
            link_map(Some(node)).dom().contains(r.1.key@),
            link_map(Some(node))[r.1.key@] == r.1.value,
            forall|k: K::V| #[trigger] link_map(Some(node)).dom().contains(k) && k != r.1.key@ ==> key_lt::<K>(r.1.key@, k),
            link_map(r.0) == link_map(Some(node)).remove(r.1.key@),
            link_count(r.0) + 1 == link_count(Some(node)),
        decreases node,
    {
        let ghost n0 = *node;
        let mut node = node;
        proof {
            lemma_lookup::<K, V>(n0, n0.key@);
        }
        match node.left.take() {
            None => {
                let right = node.right.take();
                proof {
                    let m0 = link_map(Some(Box::new(n0)));
                    assert(link_map(n0.left) =~= Map::<K::V, V>::empty());
                    assert(link_map(right) =~= m0.remove(n0.key@)) by {
                        assert forall|k: K::V| #[trigger] link_map(right).dom().contains(k) implies k != n0.key@ by {
                            assert(key_lt::<K>(n0.key@, k));
                        }
                    }
                    assert forall|k: K::V| #[trigger] m0.dom().contains(k) && k != n0.key@ implies key_lt::<K>(n0.key@, k) by {
                        assert(link_map(n0.right).dom().contains(k));
                    }
                }
                (right, node)
            },
            Some(left) => {
                let (rest, deleted) = Self::delete_min(left);
                node.left = rest;
                proof {
                    lemma_size_is_count(node.left);
                    lemma_size_is_count(node.right);
                }
                node.size = Self::size(&node.left) + Self::size(&node.right) + 1;
                proof {
                    let m0 = link_map(Some(Box::new(n0)));
                    let m1 = link_map(Some(node));
                    let d = deleted.key@;
                    assert(key_lt::<K>(d, n0.key@));
                    lemma_lookup::<K, V>(n0, d);
                    assert(m0[d] == deleted.value);
                    assert forall|k: K::V| #[trigger] link_map(node.left).dom().contains(k) implies key_lt::<K>(k, node.key@) by {
                        assert(link_map(n0.left).dom().contains(k));
                    }
                    assert(link_wf(Some(node)));
                    assert forall|k: K::V| #[trigger] m0.dom().contains(k) && k != d implies key_lt::<K>(d, k) by {
                        lemma_lookup::<K, V>(n0, k);
                        lemma_lt_trichotomy::<K>(k, n0.key@);
                        if k == n0.key@ {
                        } else if key_lt::<K>(n0.key@, k) {
                            lemma_lt_transitive::<K>(d, n0.key@, k);
                        }
                    }
                    assert forall|k: K::V| #[trigger] m1.dom().contains(k) == m0.remove(d).dom().contains(k) by {
                        lemma_lookup::<K, V>(*node, k);
                        lemma_lookup::<K, V>(n0, k);
                        lemma_lt_trichotomy::<K>(k, n0.key@);
                    }
                    assert forall|k: K::V| #[trigger] m1.dom().contains(k) implies m1[k] == m0.remove(d)[k] by {
                        lemma_lookup::<K, V>(*node, k);
                        lemma_lookup::<K, V>(n0, k);
                        lemma_lt_trichotomy::<K>(k, n0.key@);
                    }
                    assert(m1 =~= m0.remove(d));
                }
                (Some(node), deleted)
            },
        }
    }

    /// Removes the entry for `key` from the tree rooted at `node`, returning the rest of the
    /// tree and the node that held the entry, if any.
    fn delete(node: Box<Node<K, V>>, key: &K) -> (r: (Option<Box<Node<K, V>>>, Option<Box<Node<K, V>>>))
        requires
            link_wf(Some(node)),
        ensures
            link_wf(r.0),
            link_map(r.0) == link_map(Some(node)).remove(key@),
            match r.1 {
                Some(d) => link_map(Some(node)).dom().contains(key@) && d.key@ == key@ && d.value == link_map(
                    Some(node),
                )[key@] && link_count(r.0) + 1 == link_count(Some(node)),
                None => !link_map(Some(node)).dom().contains(key@) && link_count(r.0) == link_count(Some(node)),
            },
        decreases node,
    {
        let ghost n0 = *node;
        let ghost m0 = link_map(Some(node));
        let mut node = node;
        proof {
            lemma_lookup::<K, V>(n0, key@);
        }
        match key.compare(&node.key) {
            Cmp::Less => match node.left.take() {
                Some(left) => {
                    let (rest, deleted) = Self::delete(left, key);
                    node.left = rest;
                    proof {
                        lemma_size_is_count(node.left);
                        lemma_size_is_count(node.right);
                    }
                    node.size = Self::size(&node.left) + Self::size(&node.right) + 1;
                    proof {
                        let m1 = link_map(Some(node));
                        assert forall|k: K::V| #[trigger] link_map(node.left).dom().contains(k) implies key_lt::<K>(k, node.key@) by {
                            assert(link_map(n0.left).dom().contains(k));
                        }
                        assert(link_wf(Some(node)));
                        assert forall|k: K::V| #[trigger] m1.dom().contains(k) == m0.remove(key@).dom().contains(k) by {
                            lemma_lookup::<K, V>(*node, k);
                            lemma_lookup::<K, V>(n0, k);
                            lemma_lt_trichotomy::<K>(k, n0.key@);
                        }
                        assert forall|k: K::V| #[trigger] m1.dom().contains(k) implies m1[k] == m0.remove(key@)[k] by {
                            lemma_lookup::<K, V>(*node, k);
                            lemma_lookup::<K, V>(n0, k);
                            lemma_lt_trichotomy::<K>(k, n0.key@);
                        }
                        assert(m1 =~= m0.remove(key@));
                    }
                    (Some(node), deleted)
                },
                None => {
                    proof {
                        assert(m0.remove(key@) =~= m0);
                    }
                    (Some(node), None)
                },
            },
            Cmp::Greater => match node.right.take() {
                Some(right) => {
                    let (rest, deleted) = Self::delete(right, key);
                    node.right = rest;
                    proof {
                        lemma_size_is_count(node.left);
                        lemma_size_is_count(node.right);
                    }
                    node.size = Self::size(&node.left) + Self::size(&node.right) + 1;
                    proof {
                        let m1 = link_map(Some(node));
                        assert forall|k: K::V| #[trigger] link_map(node.right).dom().contains(k) implies key_lt::<K>(node.key@, k) by {
                            assert(link_map(n0.right).dom().contains(k));
                        }
                        assert(link_wf(Some(node)));
                        assert forall|k: K::V| #[trigger] m1.dom().contains(k) == m0.remove(key@).dom().contains(k) by {
                            lemma_lookup::<K, V>(*node, k);
                            lemma_lookup::<K, V>(n0, k);
                            lemma_lt_trichotomy::<K>(k, n0.key@);
                        }
                        assert forall|k: K::V| #[trigger] m1.dom().contains(k) implies m1[k] == m0.remove(key@)[k] by {
                            lemma_lookup::<K, V>(*node, k);
                            lemma_lookup::<K, V>(n0, k);
                            lemma_lt_trichotomy::<K>(k, n0.key@);
                        }
                        assert(m1 =~= m0.remove(key@));
                    }
                    (Some(node), deleted)
                },
                None => {
                    proof {
                        assert(m0.remove(key@) =~= m0);
                    }
                    (Some(node), None)
                },
            },
            Cmp::Equal => {
                if node.left.is_some() && node.right.is_some() {
                    let right = match node.right.take() {
                        Some(r) => r,
                        None => {
                            proof {
                                assert(false);
                            }
                            return (Some(node), None);
                        },
                    };
                    let (rest, mut deleted) = Self::delete_min(right);
                    let ghost m = deleted.key@;
                    node.right = rest;
                    std::mem::swap(&mut node.key, &mut deleted.key);
                    std::mem::swap(&mut node.value, &mut deleted.value);
                    proof {
                        lemma_size_is_count(node.left);
                        lemma_size_is_count(node.right);
                    }
                    node.size = Self::size(&node.left) + Self::size(&node.right) + 1;
                    proof {
                        let m1 = link_map(Some(node));
                        assert(node.key@ == m);
                        assert(link_map(n0.right).dom().contains(m));
                        assert(key_lt::<K>(n0.key@, m));
                        assert forall|k: K::V| #[trigger] link_map(node.left).dom().contains(k) implies key_lt::<K>(k, node.key@) by {
                            lemma_lt_transitive::<K>(k, n0.key@, m);
                        }
                        assert forall|k: K::V| #[trigger] link_map(node.right).dom().contains(k) implies key_lt::<K>(node.key@, k) by {
                            assert(link_map(n0.right).dom().contains(k) && k != m);
                        }
                        assert(link_wf(Some(node)));
                        assert forall|k: K::V| #[trigger] m1.dom().contains(k) == m0.remove(key@).dom().contains(k) by {
                            lemma_lookup::<K, V>(*node, k);
                            lemma_lookup::<K, V>(n0, k);
                            lemma_lt_trichotomy::<K>(k, n0.key@);
                            lemma_lt_trichotomy::<K>(k, m);
                            if key_lt::<K>(k, n0.key@) {
                                if key_lt::<K>(m, k) {
                                    lemma_lt_transitive::<K>(n0.key@, m, k);
                                    lemma_lt_trichotomy::<K>(k, n0.key@);
                                }
                            }
                        }
                        assert forall|k: K::V| #[trigger] m1.dom().contains(k) implies m1[k] == m0.remove(key@)[k] by {
                            lemma_lookup::<K, V>(*node, k);
                            lemma_lookup::<K, V>(n0, k);
                            lemma_lt_trichotomy::<K>(k, n0.key@);
                            lemma_lt_trichotomy::<K>(k, m);
                            if key_lt::<K>(k, n0.key@) {
                                if key_lt::<K>(m, k) {
                                    lemma_lt_transitive::<K>(n0.key@, m, k);
                                    lemma_lt_trichotomy::<K>(k, n0.key@);
                                }
                            }
                        }
                        assert(m1 =~= m0.remove(key@));
                    }
                    (Some(node), Some(deleted))
                } else if node.left.is_some() {
                    let left = node.left.take();
                    proof {
                        assert(link_map(n0.right) =~= Map::<K::V, V>::empty());
                        assert forall|k: K::V| #[trigger] link_map(left).dom().contains(k) implies k != key@ by {
                            assert(key_lt::<K>(k, n0.key@));
                        }
                        assert(link_map(left) =~= m0.remove(key@));
                    }
                    (left, Some(node))
                } else {
                    let right = node.right.take();
                    proof {
                        assert(link_map(n0.left) =~= Map::<K::V, V>::empty());
                        assert forall|k: K::V| #[trigger] link_map(right).dom().contains(k) implies k != key@ by {
                            assert(key_lt::<K>(n0.key@, k));
                        }
                        assert(link_map(right) =~= m0.remove(key@));
                    }
                    (right, Some(node))
                }
            },
        }
    }

    /// A mutable reference to the value stored under `key`, inserting `default` first when
    /// the key is absent; also tells whether it inserted.
    fn get_mut_or_insert<'a>(link: &'a mut Option<Box<Node<K, V>>>, key: K, default: V) -> (r: (&'a mut V, bool))
        requires
            link_wf(*old(link)),
            link_count(*old(link)) < usize::MAX,
        ensures
            r.1 == !link_map(*old(link)).dom().contains(key@),
            *r.0 == if r.1 {
                default
            } else {
                link_map(*old(link))[key@]
            },
            link_wf(*final(link)),
            link_map(*final(link)) == link_map(*old(link)).insert(key@, *final(r.0)),
            link_count(*final(link)) == link_count(*old(link)) + if r.1 {
                1int
            } else {
                0int
            },
        decreases *old(link),
    {
        match link {
            None => {
                *link = Some(Box::new(Node::new(key, default)));
                let node = link.as_mut().unwrap();
                (&mut node.value, true)
            },
            Some(node) => {
                proof {
                    lemma_lookup::<K, V>(**node, key@);
                }
                match key.compare(&node.key) {
                    Cmp::Equal => (&mut node.value, false),
                    Cmp::Less => {
                        let (r, inserted) = Self::get_mut_or_insert(&mut node.left, key, default);
                        if inserted {
                            node.size = node.size + 1;
                        }
                        (r, inserted)
                    },
                    Cmp::Greater => {
                        let (r, inserted) = Self::get_mut_or_insert(&mut node.right, key, default);
                        if inserted {
                            node.size = node.size + 1;
                        }
                        (r, inserted)
                    },
                }
            },
        }
    }
}

/// Rotates the tree rooted at `node` to the left: its right child rises.
pub(crate) fn rotate_left<K: MapKey, V>(node: Box<Node<K, V>>) -> (r: Box<Node<K, V>>)
    requires
        link_wf(Some(node)),
        node.right is Some,
    ensures
        link_wf(Some(r)),
        link_map(Some(r)) == link_map(Some(node)),
        link_count(Some(r)) == link_count(Some(node)),
        key_lt::<K>(node.key@, r.key@),
        r.key == node.right->0.key,
        r.value == node.right->0.value,
        r.right == node.right->0.right,
        r.left is Some,
        r.left->0.key == node.key,
        r.left->0.value == node.value,
        r.left->0.left == node.left,
        r.left->0.right == node.right->0.left,
{
    let ghost n0 = *node;
    let mut node = node;
    let mut x = match node.right.take() {
        Some(x) => x,
        None => {
            proof {
                assert(false);
            }
            return node;
        },
    };
    let ghost x0 = *x;
    proof {
        assert(n0.right == Some(x));
        assert(link_wf(n0.right));
        assert(link_wf(x0.left) && link_wf(x0.right));
        assert(x0.size == link_count(x0.left) + link_count(x0.right) + 1);
    }
    node.right = x.left.take();
    proof {
        lemma_size_is_count(node.left);
        lemma_size_is_count(node.right);
        lemma_size_is_count(Some(Box::new(n0)));
    }
    x.size = node.size;
    node.size = 1 + Node::size(&node.left) + Node::size(&node.right);
    proof {
        let a = n0.key@;
        let b = x0.key@;
        assert(link_map(n0.right).dom().contains(b)) by {
            lemma_lookup::<K, V>(x0, b);
        }
        assert(key_lt::<K>(a, b));
        assert forall|k: K::V| #[trigger] link_map(node.right).dom().contains(k) implies key_lt::<K>(node.key@, k) by {
            lemma_lookup::<K, V>(x0, k);
            assert(link_map(n0.right).dom().contains(k));
        }
        assert forall|k: K::V| #[trigger] link_map(node.left).dom().contains(k) implies key_lt::<K>(k, node.key@) by {
            assert(link_map(n0.left).dom().contains(k));
        }
        assert(link_wf(Some(node)));
        assert forall|k: K::V| #[trigger] link_map(Some(node)).dom().contains(k) implies key_lt::<K>(k, b) by {
            lemma_lookup::<K, V>(*node, k);
            lemma_lt_trichotomy::<K>(k, a);
            if key_lt::<K>(k, a) {
                lemma_lt_transitive::<K>(k, a, b);
            } else if key_lt::<K>(a, k) {
                lemma_lookup::<K, V>(x0, k);
                assert(link_map(x0.left).dom().contains(k));
            }
        }
        assert forall|k: K::V| #[trigger] link_map(x.right).dom().contains(k) implies key_lt::<K>(b, k) by {
            lemma_lookup::<K, V>(x0, k);
        }
    }
    x.left = Some(node);
    proof {
        let a = n0.key@;
        let b = x0.key@;
        let old_link = Some(Box::new(n0));
        let new_link = Some(x);
        assert(link_wf(new_link));
        assert forall|k: K::V| #[trigger] link_map(new_link).dom().contains(k) == link_map(old_link).dom().contains(k) by {
            lemma_lookup::<K, V>(*x, k);
            lemma_lookup::<K, V>(n0, k);
            lemma_lookup::<K, V>(x0, k);
            let l = x.left.unwrap();
            lemma_lookup::<K, V>(*l, k);
            lemma_lt_trichotomy::<K>(k, a);
            lemma_lt_trichotomy::<K>(k, b);
        }
        assert forall|k: K::V| #[trigger] link_map(new_link).dom().contains(k) implies link_map(new_link)[k] == link_map(old_link)[k] by {
            lemma_lookup::<K, V>(*x, k);
            lemma_lookup::<K, V>(n0, k);
            lemma_lookup::<K, V>(x0, k);
            let l = x.left.unwrap();
            lemma_lookup::<K, V>(*l, k);
            lemma_lt_trichotomy::<K>(k, a);
            lemma_lt_trichotomy::<K>(k, b);
        }
        assert(link_map(new_link) =~= link_map(old_link));
    }
    x
}

/// Rotates the tree rooted at `node` to the right: its left child rises.
pub(crate) fn rotate_right<K: MapKey, V>(node: Box<Node<K, V>>) -> (r: Box<Node<K, V>>)
    requires
        link_wf(Some(node)),
        node.left is Some,
    ensures
        link_wf(Some(r)),
        link_map(Some(r)) == link_map(Some(node)),
        link_count(Some(r)) == link_count(Some(node)),
        key_lt::<K>(r.key@, node.key@),
        r.key == node.left->0.key,
        r.value == node.left->0.value,
        r.left == node.left->0.left,
        r.right is Some,
        r.right->0.key == node.key,
        r.right->0.value == node.value,
        r.right->0.right == node.right,
        r.right->0.left == node.left->0.right,
{
    let ghost n0 = *node;
    let mut node = node;
    let mut x = match node.left.take() {
        Some(x) => x,
        None => {
            proof {
                assert(false);
            }
            return node;
        },
    };
    let ghost x0 = *x;
    proof {
        assert(n0.left == Some(x));
        assert(link_wf(n0.left));
        assert(link_wf(x0.right) && link_wf(x0.left));
        assert(x0.size == link_count(x0.right) + link_count(x0.left) + 1);
    }
    node.left = x.right.take();
    proof {
        lemma_size_is_count(node.right);
        lemma_size_is_count(node.left);
        lemma_size_is_count(Some(Box::new(n0)));
    }
    x.size = node.size;
    node.size = 1 + Node::size(&node.right) + Node::size(&node.left);
    proof {
        let a = n0.key@;
        let b = x0.key@;
        assert(link_map(n0.left).dom().contains(b)) by {
            lemma_lookup::<K, V>(x0, b);
        }
        assert(key_lt::<K>(b, a));
        assert forall|k: K::V| #[trigger] link_map(node.left).dom().contains(k) implies key_lt::<K>(k, node.key@) by {
            lemma_lookup::<K, V>(x0, k);
            assert(link_map(n0.left).dom().contains(k));
        }
        assert forall|k: K::V| #[trigger] link_map(node.right).dom().contains(k) implies key_lt::<K>(node.key@, k) by {
            assert(link_map(n0.right).dom().contains(k));
        }
        assert(link_wf(Some(node)));
        assert forall|k: K::V| #[trigger] link_map(Some(node)).dom().contains(k) implies key_lt::<K>(b, k) by {
            lemma_lookup::<K, V>(*node, k);
            lemma_lt_trichotomy::<K>(k, a);
            if key_lt::<K>(a, k) {
                lemma_lt_transitive::<K>(b, a, k);
            } else if key_lt::<K>(k, a) {
                lemma_lookup::<K, V>(x0, k);
                assert(link_map(x0.right).dom().contains(k));
            }
        }
        assert forall|k: K::V| #[trigger] link_map(x.left).dom().contains(k) implies key_lt::<K>(k, b) by {
            lemma_lookup::<K, V>(x0, k);
        }
    }
    x.right = Some(node);
    proof {
        let a = n0.key@;
        let b = x0.key@;
        let old_link = Some(Box::new(n0));
        let new_link = Some(x);
        assert(link_wf(new_link));
        assert forall|k: K::V| #[trigger] link_map(new_link).dom().contains(k) == link_map(old_link).dom().contains(k) by {
            lemma_lookup::<K, V>(*x, k);
            lemma_lookup::<K, V>(n0, k);
            lemma_lookup::<K, V>(x0, k);
            let l = x.right.unwrap();
            lemma_lookup::<K, V>(*l, k);
            lemma_lt_trichotomy::<K>(k, a);
            lemma_lt_trichotomy::<K>(k, b);
        }
        assert forall|k: K::V| #[trigger] link_map(new_link).dom().contains(k) implies link_map(new_link)[k] == link_map(old_link)[k] by {
            lemma_lookup::<K, V>(*x, k);
            lemma_lookup::<K, V>(n0, k);
            lemma_lookup::<K, V>(x0, k);
            let l = x.right.unwrap();
            lemma_lookup::<K, V>(*l, k);
            lemma_lt_trichotomy::<K>(k, a);
            lemma_lt_trichotomy::<K>(k, b);
        }
        assert(link_map(new_link) =~= link_map(old_link));
    }
    x
}


/// The tree hanging from `link` with the value stored under `k` replaced by `v`, all
/// else kept.
pub open spec fn set_value<K: View, V>(link: Option<Box<Node<K, V>>>, k: K::V, v: V) -> Option<Box<Node<K, V>>>
    decreases link,
{
    match link {
        None => None,
        Some(n) => if k == n.key@ {
            Some(Box::new(Node { left: n.left, right: n.right, key: n.key, value: v, size: n.size }))
        } else if link_map(n.left).dom().contains(k) {
            Some(Box::new(Node { left: set_value(n.left, k, v), right: n.right, key: n.key, value: n.value, size: n.size }))
        } else {
            Some(Box::new(Node { left: n.left, right: set_value(n.right, k, v), key: n.key, value: n.value, size: n.size }))
        },
    }
}

/// The entries of the tree hanging from `link`, in symmetric order.
pub open spec fn link_items<K, V>(link: Option<Box<Node<K, V>>>) -> Seq<(K, V)>
    decreases link,
{
    match link {
        None => Seq::empty(),
        Some(n) => link_items(n.left) + seq![(n.key, n.value)] + link_items(n.right),
    }
}

/// Whether `items` lists exactly the entries of `m`, with strictly increasing keys.
pub open spec fn lists_in_order<K: MapKey, V>(items: Seq<(K, V)>, m: Map<K::V, V>) -> bool {
    &&& forall|i: int, j: int| 0 <= i < j < items.len() ==> key_lt::<K>((#[trigger] items[i]).0@, (#[trigger] items[j]).0@)
    &&& forall|i: int| 0 <= i < items.len() ==> m.dom().contains((#[trigger] items[i]).0@) && m[items[i].0@] == items[i].1
    &&& forall|k: K::V| #[trigger] m.dom().contains(k) ==> exists|i: int| 0 <= i < items.len() && (#[trigger] items[i]).0@ == k
}

/// The symmetric order of a well-formed tree lists its entries by increasing key.
pub proof fn lemma_items_in_order<K: MapKey, V>(link: Option<Box<Node<K, V>>>)
    requires
        link_wf(link),
    ensures
        lists_in_order(link_items(link), link_map(link)),
    decreases link,
{
    match link {
        None => {},
        Some(n) => {
            lemma_items_in_order(n.left);
            lemma_items_in_order(n.right);
            let li = link_items(n.left);
            let ri = link_items(n.right);
            let items = link_items(link);
            let m = link_map(link);
            let nl = li.len() as int;
            assert forall|i: int| 0 <= i < items.len() implies m.dom().contains((#[trigger] items[i]).0@) && m[items[i].0@] == items[i].1 by {
                if i < nl {
                    assert(items[i] == li[i]);
                    lemma_lookup::<K, V>(*n, li[i].0@);
                } else if i > nl {
                    assert(items[i] == ri[i - nl - 1]);
                    lemma_lookup::<K, V>(*n, ri[i - nl - 1].0@);
                }
            }
            assert forall|i: int, j: int| 0 <= i < j < items.len() implies key_lt::<K>((#[trigger] items[i]).0@, (#[trigger] items[j]).0@) by {
                if i < nl && j < nl {
                    assert(items[i] == li[i] && items[j] == li[j]);
                } else if i < nl && j == nl {
                    assert(items[i] == li[i]);
                    assert(link_map(n.left).dom().contains(li[i].0@));
                } else if i < nl {
                    assert(items[i] == li[i] && items[j] == ri[j - nl - 1]);
                    assert(link_map(n.left).dom().contains(li[i].0@));
                    assert(link_map(n.right).dom().contains(ri[j - nl - 1].0@));
                    lemma_lt_transitive::<K>(li[i].0@, n.key@, ri[j - nl - 1].0@);
                } else if i == nl {
                    assert(items[j] == ri[j - nl - 1]);
                    assert(link_map(n.right).dom().contains(ri[j - nl - 1].0@));
                } else {
                    assert(items[i] == ri[i - nl - 1] && items[j] == ri[j - nl - 1]);
                }
            }
            assert forall|k: K::V| #[trigger] m.dom().contains(k) implies exists|i: int| 0 <= i < items.len() && (#[trigger] items[i]).0@ == k by {
                lemma_lookup::<K, V>(*n, k);
                lemma_lt_trichotomy::<K>(k, n.key@);
                if k == n.key@ {
                    assert(items[nl].0@ == k);
                } else if key_lt::<K>(k, n.key@) {
                    let i = choose|i: int| 0 <= i < li.len() && (#[trigger] li[i]).0@ == k;
                    assert(items[i] == li[i]);
                } else {
                    let i = choose|i: int| 0 <= i < ri.len() && (#[trigger] ri[i]).0@ == k;
                    assert(items[nl + 1 + i] == ri[i]);
                }
            }
        },
    }
}

/// Appends references to the entries of the tree hanging from `link`, in symmetric order.
fn collect_items<'a, K, V>(link: &'a Option<Box<Node<K, V>>>, out: &mut Vec<(&'a K, &'a V)>)
    ensures
        pairs(final(out)@) == pairs(old(out)@) + link_items(*link),
    decreases *link,
{
    match link {
        None => {
            assert(pairs(out@) =~= pairs(old(out)@) + link_items(*link));
        },
        Some(node) => {
            collect_items(&node.left, out);
            let ghost mid = out@;
            out.push((&node.key, &node.value));
            assert(pairs(out@) =~= pairs(mid) + seq![(node.key, node.value)]);
            collect_items(&node.right, out);
            assert(pairs(out@) =~= pairs(old(out)@) + link_items(*link));
        },
    }
}

/// The entries behind a list of pairs of references.
pub open spec fn pairs<'a, K, V>(s: Seq<(&'a K, &'a V)>) -> Seq<(K, V)> {
    s.map_values(|p: (&'a K, &'a V)| (*p.0, *p.1))
}

/// An ordered map kept in a binary search tree.
pub struct TreeMap<K, V> {
    pub(crate) root: Option<Box<Node<K, V>>>,
}

impl<K: MapKey, V> View for TreeMap<K, V> {
    type V = Map<K::V, V>;

    closed spec fn view(&self) -> Map<K::V, V> {
        link_map(self.root)
    }
}

impl<K: MapKey, V> TreeMap<K, V> {
    /// Keys in search order and node counts recorded right.
    pub closed spec fn wf(&self) -> bool {
        link_wf(self.root)
    }

    /// The map holds finitely many entries.
    pub proof fn lemma_view_finite(&self)
        requires
            self.wf(),
        ensures
            self@.dom().finite(),
    {
        lemma_link_len(self.root);
    }

    /// The entries in increasing key order.
    pub closed spec fn items(&self) -> Seq<(K, V)> {
        link_items(self.root)
    }

    /// What the map's view, well-formedness and entry list are made of.
    pub(crate) proof fn lemma_parts(&self)
        ensures
            self.wf() == link_wf(self.root),
            self@ == link_map(self.root),
            self.items() == link_items(self.root),
    {
    }

    /// Creates an empty map.
    pub fn new() -> (m: Self)
        ensures
            m.wf(),
            m@ == Map::<K::V, V>::empty(),
    {
        TreeMap { root: None }
    }

    /// The value stored under `key`, if any.
    pub fn get(&self, key: &K) -> (r: Option<&V>)
        requires
            self.wf(),
        ensures
            match r {
                Some(v) => self@.dom().contains(key@) && *v == self@[key@],
                None => !self@.dom().contains(key@),
            },
    {
        Node::get(&self.root, key)
    }

    /// A mutable reference to the value stored under `key`, if any.
    pub fn get_mut(&mut self, key: &K) -> (r: Option<&mut V>)
        requires
            old(self).wf(),
        ensures
            final(self).wf(),
            match r {
                Some(v) => old(self)@.dom().contains(key@) && *v == old(self)@[key@] && final(self)@ == old(self)@.insert(
                    key@,
                    *final(v),
                ),
                None => !old(self)@.dom().contains(key@) && final(self)@ == old(self)@,
            },
    {
        Node::get_mut(&mut self.root, key)
    }

    /// A mutable reference to the value stored under `key`, after inserting `default`
    /// under it when the key is absent.
    pub fn get_mut_or_insert(&mut self, key: K, default: V) -> (r: &mut V)
        requires
            old(self).wf(),
            old(self)@.len() < usize::MAX,
        ensures
            final(self).wf(),
            *r == if old(self)@.dom().contains(key@) {
                old(self)@[key@]
            } else {
                default
            },
            final(self)@ == old(self)@.insert(key@, *final(r)),
    {
        proof {
            lemma_link_len(self.root);
        }
        let (r, _) = Node::get_mut_or_insert(&mut self.root, key, default);
        r
    }

    /// Stores `value` under `key`, returning the value it replaced, if any.
    pub fn insert(&mut self, key: K, value: V) -> (r: Option<V>)
        requires
            old(self).wf(),
            old(self)@.len() < usize::MAX,
        ensures
            final(self).wf(),
            final(self)@ == old(self)@.insert(key@, value),
            old(self)@.dom().contains(key@) ==> r == Some(old(self)@[key@]),
            !old(self)@.dom().contains(key@) ==> r is None,
    {
        proof {
            lemma_link_len(self.root);
        }
        let (root, old) = Node::insert(self.root.take(), key, value);
        self.root = Some(root);
        old
    }

    /// Removes the entry for `key`, returning its value, if any.
    pub fn remove(&mut self, key: &K) -> (r: Option<V>)
        requires
            old(self).wf(),
        ensures
            final(self).wf(),
            final(self)@ == old(self)@.remove(key@),
            old(self)@.dom().contains(key@) ==> r == Some(old(self)@[key@]),
            !old(self)@.dom().contains(key@) ==> r is None,
    {
        match self.root.take() {
            Some(root) => {
                let (rest, deleted) = Node::delete(root, key);
                self.root = rest;
                match deleted {
                    Some(node) => Some(node.value),
                    None => None,
                }
            },
            None => {
                assert(old(self)@.remove(key@) =~= old(self)@);
                None
            },
        }
    }

    /// The number of entries.
    pub fn len(&self) -> (n: usize)
        requires
            self.wf(),
        ensures
            n == self@.len(),
    {
        proof {
            lemma_link_len(self.root);
            lemma_size_is_count(self.root);
        }
        Node::size(&self.root)
    }

    /// Whether the map has no entry.
    pub fn is_empty(&self) -> (b: bool)
        requires
            self.wf(),
        ensures
            b == (self@.len() == 0),
    {
        self.len() == 0
    }

    /// The entries in increasing key order.
    pub fn iter(&self) -> (it: Iter<'_, K, V>)
        requires
            self.wf(),
        ensures
            it.remaining() == self.items(),
            lists_in_order(self.items(), self@),
    {
        Iter::new(self)
    }
}

impl<K: MapKey, V> Default for TreeMap<K, V> {
    fn default() -> (m: Self)
        ensures
            m.wf(),
            m@ == Map::<K::V, V>::empty(),
    {
        TreeMap::new()
    }
}

impl<K: MapKey, V> OrderedMap<K, V> for TreeMap<K, V> {
    open spec fn contents(&self) -> Map<K::V, V> {
        self@
    }

    open spec fn valid(&self) -> bool {
        self.wf()
    }

    open spec fn can_grow(&self) -> bool {
        self@.len() < usize::MAX
    }

    fn get(&self, key: &K) -> (r: Option<&V>) {
        TreeMap::<K, V>::get(self, key)
    }

    fn get_mut(&mut self, key: &K) -> (r: Option<&mut V>) {
        TreeMap::<K, V>::get_mut(self, key)
    }

    fn insert(&mut self, key: K, value: V) -> (r: Option<V>) {
        TreeMap::<K, V>::insert(self, key, value)
    }

    fn get_mut_or_insert(&mut self, key: K, default: V) -> (r: &mut V) {
        TreeMap::<K, V>::get_mut_or_insert(self, key, default)
    }

    fn remove(&mut self, key: &K) -> (r: Option<V>) {
        TreeMap::<K, V>::remove(self, key)
    }

    fn len(&self) -> (n: usize) {
        TreeMap::<K, V>::len(self)
    }
}

/// Hands out the entries of a map in increasing key order.
pub struct Iter<'a, K, V> {
    items: Vec<(&'a K, &'a V)>,
    pos: usize,
}

impl<'a, K: MapKey, V> Iter<'a, K, V> {
    /// The entries still to hand out.
    pub closed spec fn remaining(&self) -> Seq<(K, V)> {
        if self.pos <= self.items@.len() {
            pairs(self.items@).skip(self.pos as int)
        } else {
            Seq::empty()
        }
    }

    /// Starts at the smallest key of `tree`.
    pub fn new(tree: &'a TreeMap<K, V>) -> (it: Self)
        requires
            tree.wf(),
        ensures
            it.remaining() == tree.items(),
            lists_in_order(tree.items(), tree@),
    {
        let mut items: Vec<(&'a K, &'a V)> = Vec::new();
        collect_items(&tree.root, &mut items);
        proof {
            lemma_items_in_order(tree.root);
            assert(pairs(items@).skip(0) =~= tree.items());
        }
        Iter { items, pos: 0 }
    }

    /// Hands out the given entries, in the given order.
    pub(crate) fn from_pairs(items: Vec<(&'a K, &'a V)>) -> (it: Self)
        ensures
            it.remaining() == pairs(items@),
    {
        proof {
            assert(pairs(items@).skip(0) =~= pairs(items@));
        }
        Iter { items, pos: 0 }
    }

    /// The next entry, or `None` at the end.
    pub fn next(&mut self) -> (r: Option<(&'a K, &'a V)>)
        ensures
            old(self).remaining().len() == 0 ==> r is None && final(self).remaining() == old(self).remaining(),
            old(self).remaining().len() > 0 ==> (r matches Some(p) && (*p.0, *p.1) == old(self).remaining()[0]
                && final(self).remaining() == old(self).remaining().drop_first()),
    {
        if self.pos < self.items.len() {
            let p = self.items[self.pos];
            self.pos = self.pos + 1;
            proof {
                assert(old(self).remaining()[0] == pairs(self.items@)[self.pos - 1]);
                assert(self.remaining() =~= old(self).remaining().drop_first());
            }
            Some(p)
        } else {
            None
        }
    }
}

} // verus!
