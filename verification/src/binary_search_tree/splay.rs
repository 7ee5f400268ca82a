//! An ordered map kept in a splay tree: a binary search tree that lifts the last node of
//! each search to its root, by pairs of rotations taken from the bottom of the search path.

use vstd::prelude::*;
use super::{MapKey, OrderedMap, Cmp, key_lt, lemma_lt_transitive, lemma_lt_trichotomy};
use super::bst2::{Node, TreeMap, Iter, link_items, lists_in_order, link_map, link_wf, link_count, lemma_lookup, lemma_size_is_count, lemma_link_len, rotate_left, rotate_right};

verus! {

/// No key of `m` lies strictly between `key` and `x`.
pub open spec fn nothing_between<K: MapKey, V>(m: Map<K::V, V>, key: K::V, x: K::V) -> bool {
    forall|k: K::V| #[trigger] m.dom().contains(k) ==> !(key_lt::<K>(key, k) && key_lt::<K>(k, x)) && !(key_lt::<K>(x, k)
        && key_lt::<K>(k, key))
}

/// `x` is a key where a search for `key` in `m` may end: `key` itself when `m` holds it,
/// else a key of `m` with no key of `m` between it and `key`.
pub open spec fn search_end<K: MapKey, V>(m: Map<K::V, V>, key: K::V, x: K::V) -> bool {
    &&& m.dom().contains(x)
    &&& m.dom().contains(key) ==> x == key
    &&& nothing_between::<K, V>(m, key, x)
}

/// Where a search ends in a subtree, it ends in the whole tree when the key lies on that
/// subtree's side.
proof fn lemma_search_end_up<K: MapKey, V>(n: Node<K, V>, key: K::V, x: K::V)
    requires
        link_wf(Some(Box::new(n))),
        key_lt::<K>(key, n.key@) ==> search_end::<K, V>(link_map(n.left), key, x),
        key_lt::<K>(n.key@, key) ==> search_end::<K, V>(link_map(n.right), key, x),
        key_lt::<K>(key, n.key@) || key_lt::<K>(n.key@, key),
    ensures
        search_end::<K, V>(link_map(Some(Box::new(n))), key, x),
{
    let m = link_map(Some(Box::new(n)));
    lemma_lt_trichotomy::<K>(key, n.key@);
    lemma_lookup::<K, V>(n, key);
    lemma_lookup::<K, V>(n, x);
    if key_lt::<K>(key, n.key@) {
        assert(link_map(n.left).dom().contains(x));
        assert(key_lt::<K>(x, n.key@));
    } else {
        assert(link_map(n.right).dom().contains(x));
        assert(key_lt::<K>(n.key@, x));
    }
    assert forall|k: K::V| #[trigger] m.dom().contains(k) implies !(key_lt::<K>(key, k) && key_lt::<K>(k, x)) && !(
    key_lt::<K>(x, k) && key_lt::<K>(k, key)) by {
        lemma_lookup::<K, V>(n, k);
        lemma_lt_trichotomy::<K>(k, n.key@);
        lemma_lt_trichotomy::<K>(k, x);
        lemma_lt_trichotomy::<K>(k, key);
        if key_lt::<K>(key, n.key@) {
            if k == n.key@ {
                lemma_lt_trichotomy::<K>(x, n.key@);
            } else if key_lt::<K>(n.key@, k) {
                lemma_lt_transitive::<K>(x, n.key@, k);
                lemma_lt_transitive::<K>(key, n.key@, k);
            }
        } else {
            if k == n.key@ {
                lemma_lt_trichotomy::<K>(x, n.key@);
            } else if key_lt::<K>(k, n.key@) {
                lemma_lt_transitive::<K>(k, n.key@, x);
                lemma_lt_transitive::<K>(k, n.key@, key);
            }
        }
    }
}

/// A search that stops at `n`, for its own key or for a key on a side where `n` has no
/// subtree, ends at `n`.
proof fn lemma_search_end_here<K: MapKey, V>(n: Node<K, V>, key: K::V)
    requires
        link_wf(Some(Box::new(n))),
        key == n.key@ || (key_lt::<K>(key, n.key@) && n.left is None) || (key_lt::<K>(n.key@, key) && n.right is None),
    ensures
        search_end::<K, V>(link_map(Some(Box::new(n))), key, n.key@),
{
    let m = link_map(Some(Box::new(n)));
    lemma_lookup::<K, V>(n, key);
    lemma_lookup::<K, V>(n, n.key@);
    lemma_lt_trichotomy::<K>(key, n.key@);
    assert forall|k: K::V| #[trigger] m.dom().contains(k) implies !(key_lt::<K>(key, k) && key_lt::<K>(k, n.key@)) && !(
    key_lt::<K>(n.key@, k) && key_lt::<K>(k, key)) by {
        lemma_lookup::<K, V>(n, k);
        lemma_lt_trichotomy::<K>(k, n.key@);
        lemma_lt_trichotomy::<K>(k, key);
        if key_lt::<K>(key, k) && key_lt::<K>(k, n.key@) {
            lemma_lt_transitive::<K>(key, k, n.key@);
        }
        if key_lt::<K>(n.key@, k) && key_lt::<K>(k, key) {
            lemma_lt_transitive::<K>(n.key@, k, key);
        }
    }
}

/// Splays the tree rooted at `node` from the bottom of the search path for `key`, pairing
/// rotations from the bottom up. Returns the new root and whether one step is left: when
/// it is not, the search ends at the root; when it is, it ends at the root's child on the
/// side of `key`, to be lifted by a single rotation at the top.
fn splay_rec<K: MapKey, V>(node: Box<Node<K, V>>, key: &K) -> (r: (Box<Node<K, V>>, bool))
    requires
        link_wf(Some(node)),
    ensures
        link_wf(Some(r.0)),
        link_map(Some(r.0)) == link_map(Some(node)),
        link_count(Some(r.0)) == link_count(Some(node)),
        !r.1 ==> search_end::<K, V>(link_map(Some(node)), key@, r.0.key@),
        r.1 ==> (key_lt::<K>(key@, r.0.key@) && r.0.left is Some && search_end::<K, V>(
            link_map(Some(node)),
            key@,
            r.0.left->0.key@,
        )) || (key_lt::<K>(r.0.key@, key@) && r.0.right is Some && search_end::<K, V>(
            link_map(Some(node)),
            key@,
            r.0.right->0.key@,
        )),
    decreases link_count(Some(node)),
{
    let ghost n0 = *node;
    let ghost m = link_map(Some(node));
    let mut node = node;
    match key.compare(&node.key) {
        Cmp::Equal => {
            proof {
                lemma_search_end_here::<K, V>(n0, key@);
            }
            (node, false)
        },
        Cmp::Less => match node.left.take() {
            None => {
                proof {
                    lemma_search_end_here::<K, V>(n0, key@);
                }
                (node, false)
            },
            Some(l) => {
                proof {
                    assert(link_count(Some(l)) < link_count(Some(Box::new(n0))));
                }
                let (l2, pending) = splay_rec(l, key);
                let ghost c = *l2;
                node.left = Some(l2);
                proof {
                    assert(link_wf(Some(node)));
                    assert(link_map(Some(node)) =~= m);
                }
                if pending {
                    let down_left = match &node.left {
                        Some(p) => key.compare(&p.key) == Cmp::Less,
                        None => false,
                    };
                    if down_left {
                        proof {
                            lemma_search_end_up::<K, V>(*node, key@, c.left->0.key@);
                        }
                        let t = rotate_right(node);
                        (rotate_right(t), false)
                    } else {
                        proof {
                            lemma_lt_trichotomy::<K>(key@, c.key@);
                            lemma_search_end_up::<K, V>(*node, key@, c.right->0.key@);
                        }
                        let ghost n1 = *node;
                        match node.left.take() {
                            Some(p) => {
                                let p2 = rotate_left(p);
                                node.left = Some(p2);
                                proof {
                                    assert(link_wf(Some(node)));
                                    assert(link_map(Some(node)) =~= link_map(Some(Box::new(n1))));
                                }
                                (rotate_right(node), false)
                            },
                            None => (node, false),
                        }
                    }
                } else {
                    proof {
                        lemma_search_end_up::<K, V>(*node, key@, c.key@);
                    }
                    (node, true)
                }
            },
        },
        Cmp::Greater => match node.right.take() {
            None => {
                proof {
                    lemma_search_end_here::<K, V>(n0, key@);
                }
                (node, false)
            },
            Some(rt) => {
                proof {
                    assert(link_count(Some(rt)) < link_count(Some(Box::new(n0))));
                }
                let (r2, pending) = splay_rec(rt, key);
                let ghost c = *r2;
                node.right = Some(r2);
                proof {
                    assert(link_wf(Some(node)));
                    assert(link_map(Some(node)) =~= m);
                }
                if pending {
                    let down_right = match &node.right {
                        Some(p) => key.compare(&p.key) == Cmp::Greater,
                        None => false,
                    };
                    if down_right {
                        proof {
                            lemma_search_end_up::<K, V>(*node, key@, c.right->0.key@);
                        }
                        let t = rotate_left(node);
                        (rotate_left(t), false)
                    } else {
                        proof {
                            lemma_lt_trichotomy::<K>(key@, c.key@);
                            lemma_search_end_up::<K, V>(*node, key@, c.left->0.key@);
                        }
                        let ghost n1 = *node;
                        match node.right.take() {
                            Some(p) => {
                                let p2 = rotate_right(p);
                                node.right = Some(p2);
                                proof {
                                    assert(link_wf(Some(node)));
                                    assert(link_map(Some(node)) =~= link_map(Some(Box::new(n1))));
                                }
                                (rotate_left(node), false)
                            },
                            None => (node, false),
                        }
                    }
                } else {
                    proof {
                        lemma_search_end_up::<K, V>(*node, key@, c.key@);
                    }
                    (node, true)
                }
            },
        },
    }
}

/// Searches the tree rooted at `node` for `key` and splays the node where the search ends
/// to the root; returns the new root and how `key` compares with the root's key.
fn move_to_target_and_splay<K: MapKey, V>(node: Box<Node<K, V>>, key: &K) -> (r: (Box<Node<K, V>>, Cmp))
    requires
        link_wf(Some(node)),
    ensures
        link_wf(Some(r.0)),
        link_map(Some(r.0)) == link_map(Some(node)),
        link_count(Some(r.0)) == link_count(Some(node)),
        search_end::<K, V>(link_map(Some(node)), key@, r.0.key@),
        r.1 == Cmp::Equal <==> key@ == r.0.key@,
        r.1 == Cmp::Less <==> key_lt::<K>(key@, r.0.key@),
        r.1 == Cmp::Greater <==> key_lt::<K>(r.0.key@, key@),
{
    let (t, pending) = splay_rec(node, key);
    let t = if pending {
        let c = key.compare(&t.key);
        proof {
            lemma_lt_trichotomy::<K>(key@, t.key@);
        }
        if c == Cmp::Less {
            rotate_right(t)
        } else {
            rotate_left(t)
        }
    } else {
        t
    };
    let c = key.compare(&t.key);
    proof {
        lemma_lt_trichotomy::<K>(key@, t.key@);
    }
    (t, c)
}

/// Makes `key` the root of the tree hanging from `root`: the node holding it is splayed up
/// when it is there, else a new node holding `value` becomes the root, above the two halves
/// of the splayed tree. When `key` was there, `value` is handed back unused.
fn splay_to_root<K: MapKey, V>(root: Option<Box<Node<K, V>>>, key: K, value: V) -> (r: (Box<Node<K, V>>, Option<V>))
    requires
        link_wf(root),
        link_count(root) < usize::MAX,
    ensures
        link_wf(Some(r.0)),
        r.0.key@ == key@,
        link_map(root).dom().contains(key@) ==> r.1 == Some(value) && link_map(Some(r.0)) == link_map(root)
            && link_count(Some(r.0)) == link_count(root),
        !link_map(root).dom().contains(key@) ==> r.1 is None && link_map(Some(r.0)) == link_map(root).insert(
            key@,
            value,
        ) && link_count(Some(r.0)) == link_count(root) + 1,
{
    match root {
        None => {
            let n = Box::new(Node::new(key, value));
            proof {
                assert(link_map(Some(n)) =~= link_map(root).insert(key@, value));
            }
            (n, None)
        },
        Some(root) => {
            let ghost m = link_map(Some(root));
            let (mut p, c) = move_to_target_and_splay(root, &key);
            let ghost p0 = *p;
            proof {
                lemma_lookup::<K, V>(p0, key@);
                lemma_size_is_count(Some(p));
            }
            match c {
                Cmp::Equal => (p, Some(value)),
                Cmp::Less => {
                    let pl = p.left.take();
                    proof {
                        lemma_size_is_count(pl);
                        lemma_size_is_count(p.right);
                    }
                    p.size = p.size - Node::size(&pl);
                    proof {
                        assert(link_wf(p.left));
                        assert(link_wf(Some(p)));
                        assert forall|k: K::V| #[trigger] link_map(pl).dom().contains(k) implies key_lt::<K>(k, key@) by {
                            lemma_lookup::<K, V>(p0, k);
                            lemma_lt_trichotomy::<K>(k, key@);
                        }
                        assert forall|k: K::V| #[trigger] link_map(Some(p)).dom().contains(k) implies key_lt::<K>(key@, k) by {
                            lemma_lookup::<K, V>(*p, k);
                            lemma_lt_trichotomy::<K>(k, p0.key@);
                            if k != p0.key@ {
                                lemma_lt_transitive::<K>(key@, p0.key@, k);
                            }
                        }
                    }
                    let ghost pr = *p;
                    let mut v = Box::new(Node::new(key, value));
                    v.size = Node::size(&pl) + p.size + 1;
                    v.left = pl;
                    v.right = Some(p);
                    proof {
                        let mv = link_map(Some(v));
                        assert(link_wf(Some(v)));
                        assert forall|k: K::V| #[trigger] mv.dom().contains(k) == m.insert(key@, value).dom().contains(k) by {
                            lemma_lookup::<K, V>(*v, k);
                            lemma_lookup::<K, V>(p0, k);
                            lemma_lookup::<K, V>(pr, k);
                            lemma_lt_trichotomy::<K>(k, key@);
                            lemma_lt_trichotomy::<K>(k, p0.key@);
                        }
                        assert forall|k: K::V| #[trigger] mv.dom().contains(k) implies mv[k] == m.insert(key@, value)[k] by {
                            lemma_lookup::<K, V>(*v, k);
                            lemma_lookup::<K, V>(p0, k);
                            lemma_lookup::<K, V>(pr, k);
                            lemma_lt_trichotomy::<K>(k, key@);
                            lemma_lt_trichotomy::<K>(k, p0.key@);
                        }
                        assert(mv =~= m.insert(key@, value));
                    }
                    (v, None)
                },
                Cmp::Greater => {
                    let pr = p.right.take();
                    proof {
                        lemma_size_is_count(pr);
                        lemma_size_is_count(p.left);
                    }
                    p.size = p.size - Node::size(&pr);
                    proof {
                        assert(link_wf(p.right));
                        assert(link_wf(Some(p)));
                        assert forall|k: K::V| #[trigger] link_map(pr).dom().contains(k) implies key_lt::<K>(key@, k) by {
                            lemma_lookup::<K, V>(p0, k);
                            lemma_lt_trichotomy::<K>(k, key@);
                        }
                        assert forall|k: K::V| #[trigger] link_map(Some(p)).dom().contains(k) implies key_lt::<K>(k, key@) by {
                            lemma_lookup::<K, V>(*p, k);
                            lemma_lt_trichotomy::<K>(k, p0.key@);
                            if k != p0.key@ {
                                lemma_lt_transitive::<K>(k, p0.key@, key@);
                            }
                        }
                    }
                    let ghost pl = *p;
                    let mut v = Box::new(Node::new(key, value));
                    v.size = Node::size(&pr) + p.size + 1;
                    v.right = pr;
                    v.left = Some(p);
                    proof {
                        let mv = link_map(Some(v));
                        assert(link_wf(Some(v)));
                        assert forall|k: K::V| #[trigger] mv.dom().contains(k) == m.insert(key@, value).dom().contains(k) by {
                            lemma_lookup::<K, V>(*v, k);
                            lemma_lookup::<K, V>(p0, k);
                            lemma_lookup::<K, V>(pl, k);
                            lemma_lt_trichotomy::<K>(k, key@);
                            lemma_lt_trichotomy::<K>(k, p0.key@);
                        }
                        assert forall|k: K::V| #[trigger] mv.dom().contains(k) implies mv[k] == m.insert(key@, value)[k] by {
                            lemma_lookup::<K, V>(*v, k);
                            lemma_lookup::<K, V>(p0, k);
                            lemma_lookup::<K, V>(pl, k);
                            lemma_lt_trichotomy::<K>(k, key@);
                            lemma_lt_trichotomy::<K>(k, p0.key@);
                        }
                        assert(mv =~= m.insert(key@, value));
                    }
                    (v, None)
                },
            }
        },
    }
}

/// A mutable reference to the value at the root of the tree hanging from `link`.
fn root_value_mut<K: MapKey, V>(link: &mut Option<Box<Node<K, V>>>) -> (r: &mut V)
    requires
        link_wf(*old(link)),
        old(link).is_some(),
    ensures
        *r == old(link).unwrap().value,
        link_wf(*final(link)),
        link_count(*final(link)) == link_count(*old(link)),
        link_map(*final(link)) == link_map(*old(link)).insert(old(link).unwrap().key@, *final(r)),
        final(link).is_some() && final(link).unwrap().key == old(link).unwrap().key,
{
    let ghost n0 = *old(link).unwrap();
    let n = link.as_mut().unwrap();
    proof {
        assert(link_map(Some(Box::new(n0))) == link_map(n0.left).union_prefer_right(link_map(n0.right)).insert(
            n0.key@,
            n0.value,
        ));
    }
    &mut n.value
}

/// An ordered map kept in a splay tree. Reads by `get` leave the tree as it is; the other
/// operations splay the node where their search ends to the root.
pub struct SplayTreeMap<K, V> {
    bst: TreeMap<K, V>,
}

impl<K: MapKey, V> View for SplayTreeMap<K, V> {
    type V = Map<K::V, V>;

    closed spec fn view(&self) -> Map<K::V, V> {
        link_map(self.bst.root)
    }
}

impl<K: MapKey, V> SplayTreeMap<K, V> {
    /// Keys in search order and node counts recorded right.
    pub closed spec fn wf(&self) -> bool {
        link_wf(self.bst.root)
    }

    /// The map holds finitely many entries.
    pub proof fn lemma_view_finite(&self)
        requires
            self.wf(),
        ensures
            self@.dom().finite(),
    {
        lemma_link_len(self.bst.root);
    }

    /// The key at the root of the tree, if the tree has a node.
    pub closed spec fn root_key(&self) -> Option<K::V> {
        match self.bst.root {
            Some(n) => Some(n.key@),
            None => None,
        }
    }

    /// The entries in increasing key order.
    pub closed spec fn items(&self) -> Seq<(K, V)> {
        link_items(self.bst.root)
    }

    /// Creates an empty map.
    pub fn new() -> (m: Self)
        ensures
            m.wf(),
            m@ == Map::<K::V, V>::empty(),
    {
        SplayTreeMap { bst: TreeMap { root: None } }
    }

    /// The value stored under `key`, if any; the tree is left as it is.
    pub fn get(&self, key: &K) -> (r: Option<&V>)
        requires
            self.wf(),
        ensures
            match r {
                Some(v) => self@.dom().contains(key@) && *v == self@[key@],
                None => !self@.dom().contains(key@),
            },
    {
        Node::get(&self.bst.root, key)
    }

    /// A mutable reference to the value stored under `key`, if any. Whether or not `key`
    /// is there, the node where its search ends is splayed to the root.
    pub fn get_mut(&mut self, key: &K) -> (r: Option<&mut V>)
        requires
            old(self).wf(),
        ensures
            final(self).wf(),
            match r {
                Some(v) => old(self)@.dom().contains(key@) && *v == old(self)@[key@] && final(self)@ == old(self)@.insert(
                    key@,
                    *final(v),
                ),
                None => !old(self)@.dom().contains(key@) && final(self)@ == old(self)@,
            },
            match final(self).root_key() {
                Some(x) => search_end::<K, V>(old(self)@, key@, x),
                None => old(self)@ == Map::<K::V, V>::empty(),
            },
    {
        match self.bst.root.take() {
            None => None,
            Some(root) => {
                let (t, c) = move_to_target_and_splay(root, key);
                let ghost t0 = *t;
                proof {
                    lemma_lookup::<K, V>(t0, key@);
                }
                self.bst.root = Some(t);
                if c == Cmp::Equal {
                    let v = root_value_mut(&mut self.bst.root);
                    proof {
                        assert(link_map(Some(Box::new(t0))).insert(key@, *final(v)) == old(self)@.insert(key@, *final(v)));
                    }
                    Some(v)
                } else {
                    None
                }
            },
        }
    }

    /// Stores `value` under `key`, returning the value it replaced, if any; the node of
    /// `key` ends at the root.
    pub fn insert(&mut self, key: K, value: V) -> (r: Option<V>)
        requires
            old(self).wf(),
            old(self)@.len() < usize::MAX,
        ensures
            final(self).wf(),
            final(self)@ == old(self)@.insert(key@, value),
            old(self)@.dom().contains(key@) ==> r == Some(old(self)@[key@]),
            !old(self)@.dom().contains(key@) ==> r is None,
            final(self).root_key() == Some(key@),
    {
        proof {
            lemma_link_len(self.bst.root);
        }
        let (mut t, back) = splay_to_root(self.bst.root.take(), key, value);
        let ghost t0 = *t;
        proof {
            lemma_lookup::<K, V>(t0, t0.key@);
        }
        match back {
            Some(mut v) => {
                std::mem::swap(&mut t.value, &mut v);
                proof {
                    assert(link_map(Some(t)) =~= link_map(Some(Box::new(t0))).insert(t0.key@, t.value));
                }
                self.bst.root = Some(t);
                Some(v)
            },
            None => {
                self.bst.root = Some(t);
                None
            },
        }
    }

    /// A mutable reference to the value stored under `key`, after inserting `default`
    /// under it when the key is absent; the node of `key` ends at the root.
    pub fn get_mut_or_insert(&mut self, key: K, default: V) -> (r: &mut V)
        requires
            old(self).wf(),
            old(self)@.len() < usize::MAX,
        ensures
            final(self).wf(),
            *r == if old(self)@.dom().contains(key@) {
                old(self)@[key@]
            } else {
                default
            },
            final(self)@ == old(self)@.insert(key@, *final(r)),
            final(self).root_key() == Some(key@),
    {
        proof {
            lemma_link_len(self.bst.root);
        }
        let (t, _) = splay_to_root(self.bst.root.take(), key, default);
        let ghost t0 = *t;
        proof {
            lemma_lookup::<K, V>(t0, t0.key@);
        }
        self.bst.root = Some(t);
        let v = root_value_mut(&mut self.bst.root);
        proof {
            assert(link_map(Some(Box::new(t0))).insert(t0.key@, *final(v)) =~= old(self)@.insert(t0.key@, *final(v)));
        }
        v
    }

    /// Removes the entry for `key`, returning its value, if any. When `key` is there, its
    /// node is splayed to the root and taken out; the smallest node of its right subtree,
    /// splayed to the top of that subtree, takes its place above its left subtree.
    pub fn remove(&mut self, key: &K) -> (r: Option<V>)
        requires
            old(self).wf(),
        ensures
            final(self).wf(),
            final(self)@ == old(self)@.remove(key@),
            old(self)@.dom().contains(key@) ==> r == Some(old(self)@[key@]),
            !old(self)@.dom().contains(key@) ==> r is None,
            !old(self)@.dom().contains(key@) ==> match final(self).root_key() {
                Some(x) => search_end::<K, V>(old(self)@, key@, x),
                None => old(self)@ == Map::<K::V, V>::empty(),
            },
            old(self)@.dom().contains(key@) && (exists|k: K::V| #[trigger] old(self)@.dom().contains(k) && key_lt::<K>(key@, k))
                ==> (final(self).root_key() matches Some(x) && old(self)@.dom().contains(x) && key_lt::<K>(key@, x)
                && nothing_between::<K, V>(old(self)@, key@, x)),
    {
        match self.bst.root.take() {
            None => {
                assert(old(self)@.remove(key@) =~= old(self)@);
                None
            },
            Some(root) => {
                let ghost m = link_map(Some(root));
                let (mut v, c) = move_to_target_and_splay(root, key);
                let ghost v0 = *v;
                proof {
                    lemma_lookup::<K, V>(v0, key@);
                }
                if c != Cmp::Equal {
                    proof {
                        assert(m.remove(key@) =~= m);
                    }
                    self.bst.root = Some(v);
                    return None;
                }
                let lhs = v.left.take();
                let rhs = v.right.take();
                proof {
                    assert(lhs == v0.left && rhs == v0.right);
                }
                match rhs {
                    Some(rt) => {
                        let ghost mr = link_map(Some(rt));
                        let (mut rc, _) = move_to_target_and_splay(rt, key);
                        let ghost rc0 = *rc;
                        proof {
                            lemma_lookup::<K, V>(rc0, rc0.key@);
                            assert(key_lt::<K>(key@, rc0.key@));
                            if rc0.left is Some {
                                let k = rc0.left->0.key@;
                                lemma_lookup::<K, V>(*rc0.left->0, k);
                                lemma_lookup::<K, V>(rc0, k);
                                assert(mr.dom().contains(k));
                                assert(key_lt::<K>(key@, k));
                                assert(false);
                            }
                            lemma_size_is_count(lhs);
                            lemma_size_is_count(rc0.right);
                            lemma_size_is_count(Some(Box::new(v0)));
                            lemma_size_is_count(Some(Box::new(rc0)));
                        }
                        rc.size = rc.size + Node::size(&lhs);
                        rc.left = lhs;
                        proof {
                            let mn = link_map(Some(rc));
                            assert forall|k: K::V| #[trigger] link_map(rc.left).dom().contains(k) implies key_lt::<K>(k, rc.key@) by {
                                lemma_lt_transitive::<K>(k, key@, rc0.key@);
                            }
                            assert(link_wf(Some(rc)));
                            assert forall|k: K::V| #[trigger] mn.dom().contains(k) == m.remove(key@).dom().contains(k) by {
                                lemma_lookup::<K, V>(*rc, k);
                                lemma_lookup::<K, V>(rc0, k);
                                lemma_lookup::<K, V>(v0, k);
                                lemma_lt_trichotomy::<K>(k, key@);
                                lemma_lt_trichotomy::<K>(k, rc0.key@);
                                if key_lt::<K>(k, rc0.key@) && key_lt::<K>(key@, k) {
                                    lemma_lt_trichotomy::<K>(k, rc0.key@);
                                }
                            }
                            assert forall|k: K::V| #[trigger] mn.dom().contains(k) implies mn[k] == m.remove(key@)[k] by {
                                lemma_lookup::<K, V>(*rc, k);
                                lemma_lookup::<K, V>(rc0, k);
                                lemma_lookup::<K, V>(v0, k);
                                lemma_lt_trichotomy::<K>(k, key@);
                                lemma_lt_trichotomy::<K>(k, rc0.key@);
                            }
                            assert(mn =~= m.remove(key@));
                            let x = rc0.key@;
                            assert(mr.dom().contains(x));
                            lemma_lookup::<K, V>(v0, x);
                            assert(m.dom().contains(x));
                            assert forall|k: K::V| #[trigger] m.dom().contains(k) implies !(key_lt::<K>(key@, k) && key_lt::<K>(k, x))
                                && !(key_lt::<K>(x, k) && key_lt::<K>(k, key@)) by {
                                lemma_lookup::<K, V>(v0, k);
                                lemma_lt_trichotomy::<K>(k, key@);
                                lemma_lt_trichotomy::<K>(k, x);
                                lemma_lt_trichotomy::<K>(key@, x);
                                if key_lt::<K>(key@, k) {
                                    assert(mr.dom().contains(k));
                                }
                                if key_lt::<K>(x, k) && key_lt::<K>(k, key@) {
                                    lemma_lt_transitive::<K>(x, k, key@);
                                }
                            }
                        }
                        self.bst.root = Some(rc);
                    },
                    None => {
                        proof {
                            let ml = link_map(lhs);
                            assert forall|k: K::V| #[trigger] ml.dom().contains(k) == m.remove(key@).dom().contains(k) by {
                                lemma_lookup::<K, V>(v0, k);
                                lemma_lt_trichotomy::<K>(k, key@);
                            }
                            assert forall|k: K::V| #[trigger] ml.dom().contains(k) implies ml[k] == m.remove(key@)[k] by {
                                lemma_lookup::<K, V>(v0, k);
                                lemma_lt_trichotomy::<K>(k, key@);
                            }
                            assert(ml =~= m.remove(key@));
                            assert forall|k: K::V| #[trigger] m.dom().contains(k) implies !key_lt::<K>(key@, k) by {
                                lemma_lookup::<K, V>(v0, k);
                            }
                        }
                        self.bst.root = lhs;
                    },
                }
                Some(v.value)
            },
        }
    }

    /// The number of entries.
    pub fn len(&self) -> (n: usize)
        requires
            self.wf(),
        ensures
            n == self@.len(),
    {
        proof {
            lemma_link_len(self.bst.root);
            lemma_size_is_count(self.bst.root);
        }
        Node::size(&self.bst.root)
    }

    /// Whether the map has no entry.
    pub fn is_empty(&self) -> (b: bool)
        requires
            self.wf(),
        ensures
            b == (self@.len() == 0),
    {
        self.len() == 0
    }

    /// An iterator over the entries in increasing key order; the tree is left as it is.
    pub fn iter(&self) -> (it: Iter<'_, K, V>)
        requires
            self.wf(),
        ensures
            it.remaining() == self.items(),
            lists_in_order(self.items(), self@),
    {
        proof {
            self.bst.lemma_parts();
        }
        self.bst.iter()
    }
}

impl<K: MapKey, V> Default for SplayTreeMap<K, V> {
    fn default() -> (m: Self)
        ensures
            m.wf(),
            m@ == Map::<K::V, V>::empty(),
    {
        SplayTreeMap::new()
    }
}

impl<K: MapKey, V> OrderedMap<K, V> for SplayTreeMap<K, V> {
    open spec fn contents(&self) -> Map<K::V, V> {
        self@
    }

    open spec fn valid(&self) -> bool {
        self.wf()
    }

    open spec fn can_grow(&self) -> bool {
        self@.len() < usize::MAX
    }

    fn get(&self, key: &K) -> (r: Option<&V>) {
        SplayTreeMap::<K, V>::get(self, key)
    }

    fn get_mut(&mut self, key: &K) -> (r: Option<&mut V>) {
        SplayTreeMap::<K, V>::get_mut(self, key)
    }

    fn insert(&mut self, key: K, value: V) -> (r: Option<V>) {
        SplayTreeMap::<K, V>::insert(self, key, value)
    }

    fn get_mut_or_insert(&mut self, key: K, default: V) -> (r: &mut V) {
        SplayTreeMap::<K, V>::get_mut_or_insert(self, key, default)
    }

    fn remove(&mut self, key: &K) -> (r: Option<V>) {
        SplayTreeMap::<K, V>::remove(self, key)
    }

    fn len(&self) -> (n: usize) {
        SplayTreeMap::<K, V>::len(self)
    }
}

} // verus!
