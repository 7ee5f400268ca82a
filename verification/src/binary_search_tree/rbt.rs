//! An ordered map kept in a red-black tree: a binary search tree whose nodes are red or
//! black, with no red node under a red one and as many black nodes on every path down.
//! Insertion repairs two reds in a row, removal a path that lost a black node.

use vstd::prelude::*;
use super::{MapKey, OrderedMap, Cmp, key_lt, lemma_lt_transitive, lemma_lt_trichotomy};
use super::bst2::{Node, TreeMap, Iter, pairs, lists_in_order, set_value, link_map, link_wf, link_count, lemma_lookup, lemma_size_is_count, lemma_link_len, rotate_left, rotate_right};

verus! {

/// A value together with the color of its node.
pub struct RBNode<T> {
    pub elem: T,
    pub is_black: bool,
}

/// The entries of a red-black tree, without their colors.
pub open spec fn rb_map<K: View, V>(link: Option<Box<Node<K, RBNode<V>>>>) -> Map<K::V, V> {
    link_map(link).map_values(|a: RBNode<V>| a.elem)
}

/// Whether two trees hold the same keys with the same values, whatever their colors.
pub open spec fn same_rb<K: View, V>(a: Option<Box<Node<K, RBNode<V>>>>, b: Option<Box<Node<K, RBNode<V>>>>) -> bool {
    &&& link_map(a).dom() == link_map(b).dom()
    &&& forall|k: K::V| #[trigger] link_map(a).dom().contains(k) ==> link_map(a)[k].elem == link_map(b)[k].elem
}

/// Two trees with the same keys and the same values but for their colors hold
/// the same entries.
proof fn lemma_same_rb<K: MapKey, V>(a: Option<Box<Node<K, RBNode<V>>>>, b: Option<Box<Node<K, RBNode<V>>>>)
    requires
        link_map(a).dom() == link_map(b).dom(),
        forall|k: K::V| #[trigger] link_map(a).dom().contains(k) ==> link_map(a)[k].elem == link_map(b)[k].elem,
    ensures
        rb_map(a) == rb_map(b),
{
    assert(rb_map(a) =~= rb_map(b));
}

/// Nodes with the same key and value whose subtrees hold the same entries hold the same
/// entries.
proof fn lemma_same_rb_node<K: MapKey, V>(a: Node<K, RBNode<V>>, b: Node<K, RBNode<V>>)
    requires
        same_rb(a.left, b.left),
        same_rb(a.right, b.right),
        a.key@ == b.key@,
        a.value.elem == b.value.elem,
    ensures
        same_rb(Some(Box::new(a)), Some(Box::new(b))),
{
    let ma = link_map(Some(Box::new(a)));
    let mb = link_map(Some(Box::new(b)));
    assert(ma.dom() =~= mb.dom());
}

/// A tree with the same counts and entries as a well-formed one, whose subtrees are
/// well-formed, is well-formed.
proof fn lemma_wf_same_rb<K: MapKey, V>(a: Node<K, RBNode<V>>, b: Node<K, RBNode<V>>)
    requires
        link_wf(Some(Box::new(a))),
        link_wf(b.left),
        link_wf(b.right),
        same_rb(a.left, b.left),
        same_rb(a.right, b.right),
        a.key@ == b.key@,
        b.size == link_count(b.left) + link_count(b.right) + 1,
    ensures
        link_wf(Some(Box::new(b))),
{
}

/// Equal entry maps mean the same entries.
proof fn lemma_rb_map_same<K: MapKey, V>(a: Option<Box<Node<K, RBNode<V>>>>, b: Option<Box<Node<K, RBNode<V>>>>)
    requires
        rb_map(a) == rb_map(b),
    ensures
        same_rb(a, b),
{
    assert(link_map(a).dom() =~= rb_map(a).dom());
    assert(link_map(b).dom() =~= rb_map(b).dom());
    assert forall|k: K::V| #[trigger] link_map(a).dom().contains(k) implies link_map(a)[k].elem == link_map(b)[k].elem by {
        assert(rb_map(a).dom().contains(k));
        assert(rb_map(a)[k] == link_map(a)[k].elem);
        assert(rb_map(b).dom().contains(k));
        assert(rb_map(b)[k] == link_map(b)[k].elem);
        assert(rb_map(a)[k] == rb_map(b)[k]);
    }
}

/// Looking a key up in a node, for the entries without colors.
proof fn lemma_elem_lookup<K: MapKey, V>(n: Node<K, RBNode<V>>, k: K::V)
    requires
        link_wf(Some(Box::new(n))),
    ensures
        k == n.key@ ==> rb_map(Some(Box::new(n))).dom().contains(k) && rb_map(Some(Box::new(n)))[k] == n.value.elem,
        key_lt::<K>(k, n.key@) ==> !rb_map(n.right).dom().contains(k) && (rb_map(Some(Box::new(n))).dom().contains(k)
            <==> rb_map(n.left).dom().contains(k)) && (rb_map(n.left).dom().contains(k) ==> rb_map(
            Some(Box::new(n)),
        )[k] == rb_map(n.left)[k]),
        key_lt::<K>(n.key@, k) ==> !rb_map(n.left).dom().contains(k) && (rb_map(Some(Box::new(n))).dom().contains(k)
            <==> rb_map(n.right).dom().contains(k)) && (rb_map(n.right).dom().contains(k) ==> rb_map(
            Some(Box::new(n)),
        )[k] == rb_map(n.right)[k]),
{
    lemma_lookup::<K, RBNode<V>>(n, k);
}

/// The entries of a node whose subtree on one side changed: proved key by key from the
/// node's order.
proof fn lemma_child_changed<K: MapKey, V>(
    n0: Node<K, RBNode<V>>,
    n1: Node<K, RBNode<V>>,
    key: K::V,
)
    requires
        link_wf(Some(Box::new(n0))),
        link_wf(n1.left),
        link_wf(n1.right),
        n1.key == n0.key,
        n1.value.elem == n0.value.elem,
        n1.size == link_count(n1.left) + link_count(n1.right) + 1,
        key_lt::<K>(key, n0.key@) ==> n1.right == n0.right && rb_map(n1.left) == rb_map(n0.left).remove(key),
        key_lt::<K>(n0.key@, key) ==> n1.left == n0.left && rb_map(n1.right) == rb_map(n0.right).remove(key),
        key_lt::<K>(key, n0.key@) || key_lt::<K>(n0.key@, key),
    ensures
        link_wf(Some(Box::new(n1))),
        rb_map(Some(Box::new(n1))) == rb_map(Some(Box::new(n0))).remove(key),
{
    let m0 = rb_map(Some(Box::new(n0)));
    let m1 = rb_map(Some(Box::new(n1)));
    assert forall|k: K::V| #[trigger] link_map(n1.left).dom().contains(k) implies key_lt::<K>(k, n1.key@) by {
        assert(rb_map(n1.left).dom().contains(k));
        assert(rb_map(n0.left).dom().contains(k));
    }
    assert forall|k: K::V| #[trigger] link_map(n1.right).dom().contains(k) implies key_lt::<K>(n1.key@, k) by {
        assert(rb_map(n1.right).dom().contains(k));
        assert(rb_map(n0.right).dom().contains(k));
    }
    assert(link_wf(Some(Box::new(n1))));
    assert forall|k: K::V| #[trigger] m1.dom().contains(k) == m0.remove(key).dom().contains(k) by {
        lemma_elem_lookup::<K, V>(n1, k);
        lemma_elem_lookup::<K, V>(n0, k);
        lemma_lt_trichotomy::<K>(k, n0.key@);
        lemma_lt_trichotomy::<K>(key, n0.key@);
    }
    assert forall|k: K::V| #[trigger] m1.dom().contains(k) implies m1[k] == m0.remove(key)[k] by {
        lemma_elem_lookup::<K, V>(n1, k);
        lemma_elem_lookup::<K, V>(n0, k);
        lemma_lt_trichotomy::<K>(k, n0.key@);
        lemma_lt_trichotomy::<K>(key, n0.key@);
    }
    assert(m1 =~= m0.remove(key));
}

/// The entries of a tree that lost the node holding `key` and kept one of its subtrees.
proof fn lemma_kept_subtree<K: MapKey, V>(n0: Node<K, RBNode<V>>, kept: Option<Box<Node<K, RBNode<V>>>>)
    requires
        link_wf(Some(Box::new(n0))),
        n0.left is None || n0.right is None,
        n0.left is None ==> kept == n0.right,
        n0.right is None ==> kept == n0.left,
    ensures
        rb_map(kept) == rb_map(Some(Box::new(n0))).remove(n0.key@),
{
    let m0 = rb_map(Some(Box::new(n0)));
    assert forall|k: K::V| #[trigger] rb_map(kept).dom().contains(k) implies k != n0.key@ by {
        assert(link_map(kept).dom().contains(k));
    }
    assert forall|k: K::V| #[trigger] m0.dom().contains(k) && k != n0.key@ implies rb_map(kept).dom().contains(k) by {
        lemma_elem_lookup::<K, V>(n0, k);
        lemma_lt_trichotomy::<K>(k, n0.key@);
        assert(link_map(n0.left).dom().contains(k) || link_map(n0.right).dom().contains(k));
    }
    assert forall|k: K::V| #[trigger] rb_map(kept).dom().contains(k) implies rb_map(kept)[k] == m0.remove(n0.key@)[k] by {
        assert(link_map(kept).dom().contains(k));
        lemma_elem_lookup::<K, V>(n0, k);
        lemma_lt_trichotomy::<K>(k, n0.key@);
    }
    assert(rb_map(kept) =~= m0.remove(n0.key@));
}

/// A node rebuilt from the parts of a well-formed one, with subtrees holding the same
/// entries, is well-formed and holds the same entries.
proof fn lemma_rebuilt<K: MapKey, V>(a: Node<K, RBNode<V>>, b: Node<K, RBNode<V>>)
    requires
        link_wf(Some(Box::new(a))),
        link_wf(b.left),
        link_wf(b.right),
        rb_map(b.left) == rb_map(a.left),
        rb_map(b.right) == rb_map(a.right),
        b.key == a.key,
        b.value.elem == a.value.elem,
        b.size == link_count(b.left) + link_count(b.right) + 1,
    ensures
        link_wf(Some(Box::new(b))),
        rb_map(Some(Box::new(b))) == rb_map(Some(Box::new(a))),
{
    lemma_rb_map_same(a.left, b.left);
    lemma_rb_map_same(a.right, b.right);
    lemma_wf_same_rb(a, b);
    lemma_same_rb_node(b, a);
    lemma_same_rb(Some(Box::new(b)), Some(Box::new(a)));
}

/// Whether the tree hanging from `link` has a black root; an empty tree counts as black.
pub open spec fn link_black<K, V>(link: Option<Box<Node<K, RBNode<V>>>>) -> bool {
    match link {
        None => true,
        Some(n) => n.value.is_black,
    }
}

/// Whether the tree hanging from `link` has a red root.
pub open spec fn red_root<K, V>(link: Option<Box<Node<K, RBNode<V>>>>) -> bool {
    link matches Some(n) && !n.value.is_black
}

/// The number of black nodes on the way down the left spine of the tree hanging from
/// `link`.
pub open spec fn black_height<K, V>(link: Option<Box<Node<K, RBNode<V>>>>) -> int
    decreases link,
{
    match link {
        None => 0,
        Some(n) => (if n.value.is_black {
            1int
        } else {
            0int
        }) + black_height(n.left),
    }
}

/// At the top of `n`: the two subtrees have the same black height.
pub open spec fn rb_top<K, V>(n: Node<K, RBNode<V>>) -> bool {
    black_height(n.left) == black_height(n.right)
}

/// A red-black tree: at every node the two subtrees have the same black height, so that
/// every path down meets as many black nodes, and no red node has a red child.
pub open spec fn rb_shape<K, V>(link: Option<Box<Node<K, RBNode<V>>>>) -> bool
    decreases link,
{
    match link {
        None => true,
        Some(n) => rb_top(*n) && (!n.value.is_black ==> !red_root(n.left) && !red_root(n.right)) && rb_shape(n.left)
            && rb_shape(n.right),
    }
}

/// Two reds in a row below a black `g`, and nothing else amiss: its child on the `p_left`
/// side is red, and so is that child's child on the `v_left` side, whose sibling is not;
/// below and beside them red-black trees, with black heights that agree at `g` and at the
/// red child.
pub open spec fn double_red_at<K, V>(g: Node<K, RBNode<V>>, p_left: bool, v_left: bool) -> bool {
    let p = if p_left {
        g.left
    } else {
        g.right
    };
    let u = if p_left {
        g.right
    } else {
        g.left
    };
    &&& g.value.is_black
    &&& p is Some
    &&& !p->0.value.is_black
    &&& red_root(if v_left { p->0.left } else { p->0.right })
    &&& !red_root(if v_left { p->0.right } else { p->0.left })
    &&& rb_top(*p->0)
    &&& rb_shape(p->0.left)
    &&& rb_shape(p->0.right)
    &&& rb_shape(u)
    &&& black_height(p) == black_height(u)
}

/// Replacing a stored value by one of the same color keeps the shape of a red-black tree
/// and its black height.
proof fn lemma_set_value_shape<K: MapKey, V>(link: Option<Box<Node<K, RBNode<V>>>>, k: K::V, v: RBNode<V>)
    requires
        link_wf(link),
        link_map(link).dom().contains(k),
        v.is_black == link_map(link)[k].is_black,
    ensures
        rb_shape(link) ==> rb_shape(set_value(link, k, v)),
        black_height(set_value(link, k, v)) == black_height(link),
        red_root(set_value(link, k, v)) == red_root(link),
    decreases link,
{
    if let Some(n) = link {
        lemma_lookup::<K, RBNode<V>>(*n, k);
        lemma_lt_trichotomy::<K>(k, n.key@);
        if k != n.key@ {
            if link_map(n.left).dom().contains(k) {
                lemma_set_value_shape(n.left, k, v);
            } else {
                lemma_set_value_shape(n.right, k, v);
            }
        }
    }
}

/// Whether the root of the tree hanging from `link` is black (an empty tree is).
fn is_black<K, V>(link: &Option<Box<Node<K, RBNode<V>>>>) -> (b: bool)
    ensures
        b == link_black(*link),
{
    match link {
        None => true,
        Some(n) => n.value.is_black,
    }
}

/// Paints the root of `node` black or red.
fn paint<K: MapKey, V>(node: Box<Node<K, RBNode<V>>>, black: bool) -> (r: Box<Node<K, RBNode<V>>>)
    requires
        link_wf(Some(node)),
    ensures
        link_wf(Some(r)),
        rb_map(Some(r)) == rb_map(Some(node)),
        link_count(Some(r)) == link_count(Some(node)),
        r.key == node.key,
        r.left == node.left,
        r.right == node.right,
        r.value.elem == node.value.elem,
        r.value.is_black == black,
{
    let ghost n0 = *node;
    let mut node = node;
    node.value.is_black = black;
    proof {
        lemma_rebuilt(n0, *node);
    }
    node
}

/// Paints the root of the tree hanging from `link` black or red, if there is one.
fn paint_link<K: MapKey, V>(link: Option<Box<Node<K, RBNode<V>>>>, black: bool) -> (r: Option<Box<Node<K, RBNode<V>>>>)
    requires
        link_wf(link),
    ensures
        link_wf(r),
        rb_map(r) == rb_map(link),
        link_count(r) == link_count(link),
        link is None <==> r is None,
        r is Some ==> r->0.value.is_black == black && r->0.left == link->0.left && r->0.right == link->0.right
            && r->0.key == link->0.key,
{
    match link {
        None => None,
        Some(n) => Some(paint(n, black)),
    }
}

/// Takes the left (or right) subtree of `node` out of it.
fn take_child<K, V>(node: &mut Box<Node<K, RBNode<V>>>, left: bool) -> (r: Option<Box<Node<K, RBNode<V>>>>)
    ensures
        r == if left {
            old(node).left
        } else {
            old(node).right
        },
        final(node).key == old(node).key,
        final(node).value == old(node).value,
        final(node).size == old(node).size,
        left ==> final(node).left is None && final(node).right == old(node).right,
        !left ==> final(node).right is None && final(node).left == old(node).left,
{
    if left {
        node.left.take()
    } else {
        node.right.take()
    }
}

/// Hangs `child` as the left (or right) subtree of `node`.
fn put_child<K, V>(node: &mut Box<Node<K, RBNode<V>>>, left: bool, child: Option<Box<Node<K, RBNode<V>>>>)
    ensures
        final(node).key == old(node).key,
        final(node).value == old(node).value,
        final(node).size == old(node).size,
        left ==> final(node).left == child && final(node).right == old(node).right,
        !left ==> final(node).right == child && final(node).left == old(node).left,
{
    if left {
        node.left = child;
    } else {
        node.right = child;
    }
}

/// Repairs two reds in a row below `g`: its child on the `p_left` side and that child's
/// child on the `v_left` side. With a black uncle the three nodes are rearranged by one or
/// two rotations, the middle one black on top and the other two red below it; with a red
/// uncle the parent and the uncle turn black and `g` red, which may leave two reds in a row
/// further up, for the caller to repair.
fn solve_double_red<K: MapKey, V>(g: Box<Node<K, RBNode<V>>>, p_left: bool, v_left: bool) -> (r: Box<
    Node<K, RBNode<V>>,
>)
    requires
        link_wf(Some(g)),
        p_left ==> g.left is Some && (if v_left {
            g.left->0.left is Some
        } else {
            g.left->0.right is Some
        }),
        !p_left ==> g.right is Some && (if v_left {
            g.right->0.left is Some
        } else {
            g.right->0.right is Some
        }),
    ensures
        link_wf(Some(r)),
        rb_map(Some(r)) == rb_map(Some(g)),
        link_count(Some(r)) == link_count(Some(g)),
        double_red_at(*g, p_left, v_left) ==> rb_shape(Some(r)) && black_height(Some(r)) == black_height(Some(g)),
{
    let ghost g0 = *g;
    let uncle_black = if p_left {
        is_black(&g.right)
    } else {
        is_black(&g.left)
    };
    let mut g = g;
    if uncle_black {
        let p = take_child(&mut g, p_left);
        match p {
            Some(p) => {
                proof {
                    assert(link_wf(Some(p)));
                }
                let ghost p0 = *p;
                let top = if p_left == v_left {
                    paint(p, true)
                } else if p_left {
                    paint(rotate_left(p), true)
                } else {
                    paint(rotate_right(p), true)
                };
                let ghost t0 = *top;
                put_child(&mut g, p_left, Some(top));
                proof {
                    lemma_size_is_count(Some(Box::new(g0)));
                    lemma_rebuilt(g0, *g);
                }
                let g = paint(g, false);
                let res = if p_left {
                    rotate_right(g)
                } else {
                    rotate_left(g)
                };
                proof {
                    if double_red_at(g0, p_left, v_left) {
                        lemma_double_red_black_uncle(g0, p0, t0, *res, p_left, v_left);
                    }
                }
                res
            },
            None => g,
        }
    } else {
        let l = paint_link(g.left.take(), true);
        let r = paint_link(g.right.take(), true);
        g.left = l;
        g.right = r;
        proof {
            lemma_rebuilt(g0, *g);
        }
        let res = paint(g, false);
        proof {
            if double_red_at(g0, p_left, v_left) {
                lemma_double_red_red_uncle(g0, *res, p_left, v_left);
            }
        }
        res
    }
}

/// With a red uncle, turning the parent and the uncle black and the grandparent red
/// leaves a red-black tree of the same black height.
proof fn lemma_double_red_red_uncle<K, V>(g0: Node<K, RBNode<V>>, r: Node<K, RBNode<V>>, p_left: bool, v_left: bool)
    requires
        double_red_at(g0, p_left, v_left),
        red_root(if p_left { g0.right } else { g0.left }),
        !r.value.is_black,
        r.left is Some && r.right is Some,
        r.left->0.value.is_black && r.right->0.value.is_black,
        r.left->0.left == g0.left->0.left && r.left->0.right == g0.left->0.right,
        r.right->0.left == g0.right->0.left && r.right->0.right == g0.right->0.right,
    ensures
        rb_shape(Some(Box::new(r))),
        black_height(Some(Box::new(r))) == black_height(Some(Box::new(g0))),
{
    let a = g0.left->0;
    let b = g0.right->0;
    if p_left {
        assert(rb_shape(g0.right));
        assert(rb_top(*b) && rb_shape(b.left) && rb_shape(b.right));
    } else {
        assert(rb_shape(g0.left));
        assert(rb_top(*a) && rb_shape(a.left) && rb_shape(a.right));
    }
    assert(rb_top(*a) && rb_shape(a.left) && rb_shape(a.right));
    assert(rb_top(*b) && rb_shape(b.left) && rb_shape(b.right));
    assert(black_height(g0.left) == black_height(a.left));
    assert(black_height(g0.right) == black_height(b.left));
    assert(black_height(r.left) == 1 + black_height(a.left));
    assert(black_height(r.right) == 1 + black_height(b.left));
    assert(rb_shape(r.left));
    assert(rb_shape(r.right));
}

/// With a black uncle, one or two rotations that put the middle of the three nodes on top,
/// black, and the other two below it, red, leave a red-black tree of the same black height.
proof fn lemma_double_red_black_uncle<K, V>(
    g0: Node<K, RBNode<V>>,
    p0: Node<K, RBNode<V>>,
    t0: Node<K, RBNode<V>>,
    r: Node<K, RBNode<V>>,
    p_left: bool,
    v_left: bool,
)
    requires
        double_red_at(g0, p_left, v_left),
        !red_root(if p_left { g0.right } else { g0.left }),
        (if p_left { g0.left } else { g0.right }) == Some(Box::new(p0)),
        t0.value.is_black,
        p_left == v_left ==> t0.left == p0.left && t0.right == p0.right,
        p_left && !v_left ==> t0.left is Some && t0.left->0.value == p0.value && t0.left->0.left == p0.left
            && t0.left->0.right == p0.right->0.left && t0.right == p0.right->0.right,
        !p_left && v_left ==> t0.right is Some && t0.right->0.value == p0.value && t0.right->0.right == p0.right
            && t0.right->0.left == p0.left->0.right && t0.left == p0.left->0.left,
        p_left ==> r.value == t0.value && r.left == t0.left && r.right is Some && !r.right->0.value.is_black
            && r.right->0.left == t0.right && r.right->0.right == g0.right,
        !p_left ==> r.value == t0.value && r.right == t0.right && r.left is Some && !r.left->0.value.is_black
            && r.left->0.right == t0.left && r.left->0.left == g0.left,
    ensures
        rb_shape(Some(Box::new(r))),
        black_height(Some(Box::new(r))) == black_height(Some(Box::new(g0))),
{
    assert(black_height(Some(Box::new(p0))) == black_height(p0.left));
    if p_left == v_left {
        if p_left {
            let v = p0.left->0;
            assert(rb_top(*v) && rb_shape(v.left) && rb_shape(v.right));
            assert(black_height(p0.left) == black_height(v.left));
            assert(rb_shape(r.left));
            assert(rb_shape(r.right));
        } else {
            let v = p0.right->0;
            assert(rb_top(*v) && rb_shape(v.left) && rb_shape(v.right));
            assert(black_height(p0.right) == black_height(v.left));
            assert(rb_shape(r.left));
            assert(rb_shape(r.right));
        }
    } else {
        if p_left {
            let v = p0.right->0;
            assert(rb_top(*v) && rb_shape(v.left) && rb_shape(v.right));
            assert(!red_root(v.left) && !red_root(v.right));
            assert(black_height(p0.right) == black_height(v.left));
            assert(rb_shape(r.left));
            assert(rb_shape(r.right));
        } else {
            let v = p0.left->0;
            assert(rb_top(*v) && rb_shape(v.left) && rb_shape(v.right));
            assert(!red_root(v.left) && !red_root(v.right));
            assert(black_height(p0.left) == black_height(v.left));
            assert(rb_shape(r.left));
            assert(rb_shape(r.right));
        }
    }
}

/// Whether the subtree of `g` on the `p_left` side has a red root whose child on the side
/// of `key` is red too; and which side that child is on.
fn double_red_toward<K: MapKey, V>(g: &Node<K, RBNode<V>>, p_left: bool, key: &K) -> (r: (bool, bool))
    ensures
        ({
            let c = if p_left {
                g.left
            } else {
                g.right
            };
            &&& r.0 == (red_root(c) && if key_lt::<K>(key@, c->0.key@) {
                red_root(c->0.left)
            } else {
                red_root(c->0.right)
            })
            &&& r.0 ==> r.1 == key_lt::<K>(key@, c->0.key@)
        }),
        r.0 ==> (p_left ==> g.left is Some && (if r.1 {
            g.left->0.left is Some
        } else {
            g.left->0.right is Some
        })) && (!p_left ==> g.right is Some && (if r.1 {
            g.right->0.left is Some
        } else {
            g.right->0.right is Some
        })),
{
    let c = if p_left {
        &g.left
    } else {
        &g.right
    };
    match c {
        None => (false, false),
        Some(c) => {
            if c.value.is_black {
                (false, false)
            } else {
                let v_left = key.compare(&c.key) == Cmp::Less;
                let v = if v_left {
                    &c.left
                } else {
                    &c.right
                };
                (!is_black(v), v_left)
            }
        },
    }
}

/// Stores `value` under `key` in the red-black tree hanging from `link`; returns the new
/// root and the value that `key` held before, if any (its stored key and color are kept).
/// A new node comes in red; two reds in a row are repaired on the way back up, at the
/// grandparent of the lower one. The root may come back red.
fn insert_rb<K: MapKey, V>(link: Option<Box<Node<K, RBNode<V>>>>, key: K, value: V) -> (r: (
    Box<Node<K, RBNode<V>>>,
    Option<V>,
))
    requires
        link_wf(link),
        link_count(link) < usize::MAX,
    ensures
        link_wf(Some(r.0)),
        rb_map(Some(r.0)) == rb_map(link).insert(key@, value),
        rb_map(link).dom().contains(key@) ==> r.1 == Some(rb_map(link)[key@]) && link_count(Some(r.0)) == link_count(
            link,
        ),
        !rb_map(link).dom().contains(key@) ==> r.1 is None && link_count(Some(r.0)) == link_count(link) + 1,
        rb_shape(link) ==> rb_top(*r.0) && rb_shape(r.0.left) && rb_shape(r.0.right) && black_height(Some(r.0))
            == black_height(link),
        rb_shape(link) && !r.0.value.is_black && red_root(r.0.left) ==> red_root(link) && key_lt::<K>(key@, r.0.key@)
            && !red_root(r.0.right),
        rb_shape(link) && !r.0.value.is_black && red_root(r.0.right) ==> red_root(link) && key_lt::<K>(r.0.key@, key@)
            && !red_root(r.0.left),
        rb_shape(link) && rb_map(link).dom().contains(key@) ==> rb_shape(Some(r.0)) && link is Some && r.0.value.is_black
            == link->0.value.is_black,
    decreases link,
{
    match link {
        None => {
            let n = Box::new(Node::new(key, RBNode { elem: value, is_black: false }));
            proof {
                assert(rb_map(Some(n)) =~= rb_map(link).insert(key@, value));
            }
            (n, None)
        },
        Some(mut node) => {
            let ghost n0 = *node;
            proof {
                lemma_elem_lookup::<K, V>(n0, key@);
            }
            let c = key.compare(&node.key);
            let old = match c {
                Cmp::Less => {
                    let (child, old) = insert_rb(node.left.take(), key.duplicate(), value);
                    node.left = Some(child);
                    old
                },
                Cmp::Greater => {
                    let (child, old) = insert_rb(node.right.take(), key.duplicate(), value);
                    node.right = Some(child);
                    old
                },
                Cmp::Equal => {
                    let mut old = value;
                    std::mem::swap(&mut node.value.elem, &mut old);
                    Some(old)
                },
            };
            proof {
                lemma_size_is_count(node.left);
                lemma_size_is_count(node.right);
            }
            node.size = Node::size(&node.left) + Node::size(&node.right) + 1;
            proof {
                let m0 = rb_map(Some(Box::new(n0)));
                let m1 = rb_map(Some(node));
                assert forall|k: K::V| #[trigger] link_map(node.left).dom().contains(k) implies key_lt::<K>(k, node.key@) by {
                    assert(rb_map(node.left).dom().contains(k));
                    if k != key@ {
                        assert(rb_map(n0.left).dom().contains(k));
                    }
                }
                assert forall|k: K::V| #[trigger] link_map(node.right).dom().contains(k) implies key_lt::<K>(node.key@, k) by {
                    assert(rb_map(node.right).dom().contains(k));
                    if k != key@ {
                        assert(rb_map(n0.right).dom().contains(k));
                    }
                }
                assert(link_wf(Some(node)));
                assert forall|k: K::V| #[trigger] m1.dom().contains(k) == m0.insert(key@, value).dom().contains(k) by {
                    lemma_elem_lookup::<K, V>(*node, k);
                    lemma_elem_lookup::<K, V>(n0, k);
                    lemma_lt_trichotomy::<K>(k, n0.key@);
                }
                assert forall|k: K::V| #[trigger] m1.dom().contains(k) implies m1[k] == m0.insert(key@, value)[k] by {
                    lemma_elem_lookup::<K, V>(*node, k);
                    lemma_elem_lookup::<K, V>(n0, k);
                    lemma_lt_trichotomy::<K>(k, n0.key@);
                }
                assert(m1 =~= m0.insert(key@, value));
            }
            proof {
                if rb_shape(link) {
                    assert(rb_top(n0) && rb_shape(n0.left) && rb_shape(n0.right));
                    assert(node.value.is_black == n0.value.is_black);
                    assert(black_height(link) == (if n0.value.is_black { 1int } else { 0int }) + black_height(n0.left));
                    assert(black_height(Some(node)) == (if node.value.is_black { 1int } else { 0int }) + black_height(node.left));
                    lemma_lt_trichotomy::<K>(key@, n0.key@);
                    if node.left is Some {
                        let x = node.left->0;
                        assert(black_height(node.left) == (if x.value.is_black { 1int } else { 0int }) + black_height(x.left));
                    }
                    if node.right is Some {
                        let x = node.right->0;
                        assert(black_height(node.right) == (if x.value.is_black { 1int } else { 0int }) + black_height(x.left));
                    }
                    if n0.left is Some {
                        let x = n0.left->0;
                        assert(rb_top(*x) && rb_shape(x.left) && rb_shape(x.right));
                        assert(black_height(n0.left) == (if x.value.is_black { 1int } else { 0int }) + black_height(x.left));
                    }
                    if n0.right is Some {
                        let x = n0.right->0;
                        assert(rb_top(*x) && rb_shape(x.left) && rb_shape(x.right));
                        assert(black_height(n0.right) == (if x.value.is_black { 1int } else { 0int }) + black_height(x.left));
                    }
                }
            }
            if old.is_none() && c != Cmp::Equal {
                let p_left = c == Cmp::Less;
                let (twice, v_left) = double_red_toward(&node, p_left, &key);
                if twice {
                    proof {
                        if rb_shape(link) {
                            assert(double_red_at(*node, p_left, v_left));
                        }
                    }
                    return (solve_double_red(node, p_left, v_left), old);
                }
                proof {
                    if rb_shape(link) {
                        if p_left {
                            let x = node.left->0;
                            lemma_lt_trichotomy::<K>(key@, x.key@);
                            assert(!(!x.value.is_black && red_root(x.left)));
                            assert(!(!x.value.is_black && red_root(x.right)));
                            assert(rb_shape(node.left));
                        } else {
                            let x = node.right->0;
                            lemma_lt_trichotomy::<K>(key@, x.key@);
                            assert(!(!x.value.is_black && red_root(x.left)));
                            assert(!(!x.value.is_black && red_root(x.right)));
                            assert(rb_shape(node.right));
                        }
                    }
                }
            }
            proof {
                if rb_shape(link) {
                    assert(rb_shape(node.left));
                    assert(rb_shape(node.right));
                    if rb_map(link).dom().contains(key@) {
                        assert(rb_shape(Some(node)));
                    }
                }
            }
            (node, old)
        },
    }
}

/// The subtree of `g` on the `x_left` side is one black node short: it and its sibling
/// are red-black trees, it hangs from a black (or empty) root, its black height is one
/// less than its sibling's, and under a red `g` the sibling is black too.
pub open spec fn short_at<K, V>(g: Node<K, RBNode<V>>, x_left: bool) -> bool {
    let x = if x_left {
        g.left
    } else {
        g.right
    };
    let s = if x_left {
        g.right
    } else {
        g.left
    };
    &&& rb_shape(x)
    &&& rb_shape(s)
    &&& !red_root(x)
    &&& black_height(s) == black_height(x) + 1
    &&& (!g.value.is_black ==> !red_root(s))
}

/// The black height that `g` has on the side of the sibling of its `x_left` subtree.
pub open spec fn full_height<K, V>(g: Node<K, RBNode<V>>, x_left: bool) -> int {
    (if g.value.is_black {
        1int
    } else {
        0int
    }) + black_height(if x_left {
        g.right
    } else {
        g.left
    })
}

/// What a short subtree and its sibling are made of.
proof fn lemma_short_parts<K, V>(g: Node<K, RBNode<V>>, x_left: bool)
    ensures
        short_at(g, x_left) ==> ({
            let s = if x_left {
                g.right
            } else {
                g.left
            };
            &&& s is Some
            &&& rb_top(*s->0)
            &&& rb_shape(s->0.left)
            &&& rb_shape(s->0.right)
            &&& (!s->0.value.is_black ==> !red_root(s->0.left) && !red_root(s->0.right))
            &&& black_height(s) == (if s->0.value.is_black {
                1int
            } else {
                0int
            }) + black_height(s->0.left)
        }),
{
    if short_at(g, x_left) {
        let x = if x_left {
            g.left
        } else {
            g.right
        };
        let s = if x_left {
            g.right
        } else {
            g.left
        };
        if s is None {
            assert(black_height(s) == 0);
            assert(black_height(x) >= 0) by {
                lemma_black_height_nonneg(x);
            }
        }
    }
}

/// Black heights are never negative.
proof fn lemma_black_height_nonneg<K, V>(link: Option<Box<Node<K, RBNode<V>>>>)
    ensures
        black_height(link) >= 0,
    decreases link,
{
    if let Some(n) = link {
        lemma_black_height_nonneg(n.left);
    }
}

/// A black sibling whose children are black turns red: the subtree is a red-black tree
/// again, one black node shorter if `g` stays black, of full height if `g` turns black.
proof fn lemma_black_sibling_black_nephews<K, V>(g0: Node<K, RBNode<V>>, r: Node<K, RBNode<V>>, x_left: bool)
    requires
        short_at(g0, x_left),
        ({
            let s = if x_left {
                g0.right
            } else {
                g0.left
            };
            s is Some && s->0.value.is_black && !red_root(s->0.left) && !red_root(s->0.right)
        }),
        r.value.is_black,
        x_left ==> r.left == g0.left && r.right is Some && !r.right->0.value.is_black && r.right->0.left
            == g0.right->0.left && r.right->0.right == g0.right->0.right,
        !x_left ==> r.right == g0.right && r.left is Some && !r.left->0.value.is_black && r.left->0.left
            == g0.left->0.left && r.left->0.right == g0.left->0.right,
    ensures
        rb_shape(Some(Box::new(r))),
        black_height(Some(Box::new(r))) == full_height(g0, x_left) - if g0.value.is_black {
            1int
        } else {
            0int
        },
{
    lemma_short_parts(g0, x_left);
    if x_left {
        let t = r.right->0;
        assert(black_height(r.right) == black_height(t.left));
        assert(rb_shape(r.right));
    } else {
        let t = r.left->0;
        assert(black_height(r.left) == black_height(t.left));
        assert(rb_shape(r.left));
    }
}

/// A black sibling with a red child on its outer side rises above `g` in `g`'s color; `g`
/// turns black above the short subtree and the red nephew turns black: a red-black tree
/// of full height again.
proof fn lemma_black_sibling_outer<K, V>(g0: Node<K, RBNode<V>>, t0: Node<K, RBNode<V>>, t: Node<K, RBNode<V>>, x_left: bool)
    requires
        short_at(g0, x_left),
        !x_left ==> g0.left is Some && g0.left->0.value.is_black && red_root(g0.left->0.left) && t0.value.is_black
            == g0.value.is_black && t0.left == g0.left->0.left && t0.right is Some && t0.right->0.value.is_black
            && t0.right->0.left == g0.left->0.right && t0.right->0.right == g0.right && t.value == t0.value && t.right
            == t0.right && t.left is Some && t.left->0.value.is_black && t.left->0.left == g0.left->0.left->0.left
            && t.left->0.right == g0.left->0.left->0.right,
        x_left ==> g0.right is Some && g0.right->0.value.is_black && red_root(g0.right->0.right) && t0.value.is_black
            == g0.value.is_black && t0.right == g0.right->0.right && t0.left is Some && t0.left->0.value.is_black
            && t0.left->0.right == g0.right->0.left && t0.left->0.left == g0.left && t.value == t0.value && t.left
            == t0.left && t.right is Some && t.right->0.value.is_black && t.right->0.left == g0.right->0.right->0.left
            && t.right->0.right == g0.right->0.right->0.right,
    ensures
        rb_shape(Some(Box::new(t))),
        black_height(Some(Box::new(t))) == full_height(g0, x_left),
        red_root(Some(Box::new(t))) ==> !g0.value.is_black,
{
    lemma_short_parts(g0, x_left);
    if !x_left {
        let sb = g0.left->0;
        let v = sb.left->0;
        assert(rb_shape(sb.left));
        assert(rb_top(*v) && rb_shape(v.left) && rb_shape(v.right));
        assert(black_height(sb.left) == black_height(v.left));
        assert(black_height(t.left) == 1 + black_height(v.left));
        assert(black_height(t0.right) == 1 + black_height(sb.right));
        assert(rb_shape(t.left));
        assert(rb_shape(t0.right));
    } else {
        let sb = g0.right->0;
        let v = sb.right->0;
        assert(rb_shape(sb.right));
        assert(rb_top(*v) && rb_shape(v.left) && rb_shape(v.right));
        assert(black_height(sb.right) == black_height(v.left));
        assert(black_height(t.right) == 1 + black_height(v.left));
        assert(black_height(t0.left) == 1 + black_height(g0.left));
        assert(rb_shape(t.right));
        assert(rb_shape(t0.left));
    }
}

/// A black sibling with a red child on its inner side, and a black one on its outer side:
/// that child rises above `g` in `g`'s color, with the sibling and `g` black below it: a
/// red-black tree of full height again.
proof fn lemma_black_sibling_inner<K, V>(
    g0: Node<K, RBNode<V>>,
    s0: Node<K, RBNode<V>>,
    top0: Node<K, RBNode<V>>,
    t: Node<K, RBNode<V>>,
    x_left: bool,
)
    requires
        short_at(g0, x_left),
        !x_left ==> g0.left == Some(Box::new(s0)) && s0.value.is_black && !red_root(s0.left) && red_root(s0.right)
            && top0.value.is_black == g0.value.is_black && top0.left is Some && top0.left->0.value.is_black
            && top0.left->0.left == s0.left && top0.left->0.right == s0.right->0.left && top0.right == s0.right->0.right
            && t.value == top0.value && t.left == top0.left && t.right is Some && t.right->0.value.is_black
            && t.right->0.left == top0.right && t.right->0.right == g0.right,
        x_left ==> g0.right == Some(Box::new(s0)) && s0.value.is_black && red_root(s0.left)
            && top0.value.is_black == g0.value.is_black && top0.right is Some && top0.right->0.value.is_black
            && top0.right->0.right == s0.right && top0.right->0.left == s0.left->0.right && top0.left == s0.left->0.left
            && t.value == top0.value && t.right == top0.right && t.left is Some && t.left->0.value.is_black
            && t.left->0.right == top0.left && t.left->0.left == g0.left,
    ensures
        rb_shape(Some(Box::new(t))),
        black_height(Some(Box::new(t))) == full_height(g0, x_left),
        red_root(Some(Box::new(t))) ==> !g0.value.is_black,
{
    lemma_short_parts(g0, x_left);
    if !x_left {
        let v = s0.right->0;
        assert(rb_shape(s0.right));
        assert(rb_top(*v) && rb_shape(v.left) && rb_shape(v.right));
        assert(!red_root(v.left) && !red_root(v.right));
        assert(black_height(s0.right) == black_height(v.left));
        assert(black_height(t.left) == 1 + black_height(s0.left));
        assert(black_height(t.right) == 1 + black_height(v.right));
        assert(rb_shape(t.left));
        assert(rb_shape(t.right));
    } else {
        let v = s0.left->0;
        assert(rb_shape(s0.left));
        assert(rb_top(*v) && rb_shape(v.left) && rb_shape(v.right));
        assert(!red_root(v.left) && !red_root(v.right));
        assert(black_height(s0.left) == black_height(v.left));
        assert(black_height(t.right) == 1 + black_height(v.right));
        assert(black_height(t.left) == 1 + black_height(g0.left));
        assert(rb_shape(t.left));
        assert(rb_shape(t.right));
    }
}

/// A red sibling rises above `g`, black, with `g` red below it: the subtree short of a
/// black node now hangs below a red `g` whose other child, a child of the old sibling, is
/// black and one black node taller.
proof fn lemma_red_sibling_inner<K, V>(g0: Node<K, RBNode<V>>, t0: Node<K, RBNode<V>>, inner0: Node<K, RBNode<V>>, x_left: bool)
    requires
        short_at(g0, x_left),
        !x_left ==> g0.left is Some && !g0.left->0.value.is_black && t0.value.is_black && t0.left == g0.left->0.left
            && t0.right == Some(Box::new(inner0)) && !inner0.value.is_black && inner0.left == g0.left->0.right
            && inner0.right == g0.right,
        x_left ==> g0.right is Some && !g0.right->0.value.is_black && t0.value.is_black && t0.right == g0.right->0.right
            && t0.left == Some(Box::new(inner0)) && !inner0.value.is_black && inner0.right == g0.right->0.left
            && inner0.left == g0.left,
    ensures
        short_at(inner0, x_left),
        g0.value.is_black,
        full_height(inner0, x_left) + 1 == full_height(g0, x_left),
{
    lemma_short_parts(g0, x_left);
}

/// Below the risen red sibling, now black, the repaired subtree has full height: a
/// red-black tree of full height again.
proof fn lemma_red_sibling<K, V>(g0: Node<K, RBNode<V>>, t0: Node<K, RBNode<V>>, inner0: Node<K, RBNode<V>>, t: Node<K, RBNode<V>>, x_left: bool)
    requires
        short_at(g0, x_left),
        !x_left ==> g0.left is Some && !g0.left->0.value.is_black && t0.value.is_black && t0.left == g0.left->0.left
            && t0.right == Some(Box::new(inner0)) && !inner0.value.is_black && inner0.left == g0.left->0.right
            && inner0.right == g0.right && t.value == t0.value && t.left == t0.left && rb_shape(t.right) && black_height(
            t.right,
        ) == full_height(inner0, x_left),
        x_left ==> g0.right is Some && !g0.right->0.value.is_black && t0.value.is_black && t0.right == g0.right->0.right
            && t0.left == Some(Box::new(inner0)) && !inner0.value.is_black && inner0.right == g0.right->0.left
            && inner0.left == g0.left && t.value == t0.value && t.right == t0.right && rb_shape(t.left) && black_height(
            t.left,
        ) == full_height(inner0, x_left),
    ensures
        rb_shape(Some(Box::new(t))),
        black_height(Some(Box::new(t))) == full_height(g0, x_left),
        !red_root(Some(Box::new(t))),
{
    lemma_short_parts(g0, x_left);
    lemma_red_sibling_inner(g0, t0, inner0, x_left);
}

/// The subtree of `n` on the `left` side, else the one on the right.
pub open spec fn side<K, V>(n: Node<K, RBNode<V>>, left: bool) -> Option<Box<Node<K, RBNode<V>>>> {
    if left {
        n.left
    } else {
        n.right
    }
}

/// The colors that the repair at `g` of a deficit on the `x_left` side leaves, for each
/// color of the sibling and of its children; `t` is the repaired subtree and `up` whether
/// the deficit moved up.
/// - Black sibling whose outer child is red (the left one preferred when the sibling is a
///   left child): the sibling rises and takes the color of `g`; `g`, below it on the short
///   side, and the outer child are black.
/// - Black sibling with only the inner child red: the inner child rises and takes the color
///   of `g`; the sibling and `g` below it are black.
/// - Black sibling with black children (or no sibling): the sibling turns red and `g` black;
///   the deficit moves up when `g` was black.
/// - Red sibling: the sibling rises, black.
pub open spec fn double_black_recolored<K, V>(g: Node<K, RBNode<V>>, x_left: bool, t: Node<K, RBNode<V>>, up: bool) -> bool {
    match side(g, !x_left) {
        None => t.key == g.key && t.value.is_black && up == g.value.is_black,
        Some(s) => if s.value.is_black {
            if (if x_left {
                !red_root(s.left) && red_root(s.right)
            } else {
                red_root(s.left)
            }) {
                &&& t.key == s.key
                &&& t.value.is_black == g.value.is_black
                &&& !up
                &&& side(t, x_left) matches Some(c) && c.key == g.key && c.value.is_black
                &&& side(t, !x_left) matches Some(o) && o.key == side(*s, !x_left)->0.key && o.value.is_black
            } else if red_root(s.left) || red_root(s.right) {
                &&& t.key == side(*s, x_left)->0.key
                &&& t.value.is_black == g.value.is_black
                &&& !up
                &&& side(t, x_left) matches Some(c) && c.key == g.key && c.value.is_black
                &&& side(t, !x_left) matches Some(o) && o.key == s.key && o.value.is_black
            } else {
                &&& t.key == g.key
                &&& t.value.is_black
                &&& up == g.value.is_black
                &&& side(t, !x_left) matches Some(o) && o.key == s.key && !o.value.is_black
            }
        } else {
            t.key == s.key && t.value.is_black
        },
    }
}

/// Repairs `g` after its subtree on the `x_left` side lost a black node on every path
/// down. By the colors of the sibling, of its children and of `g`: a black sibling with a
/// red child is rearranged by one or two rotations around `g` and the deficit is gone; a
/// black sibling with black children turns red, and `g` turns black if it was red, else
/// the deficit moves up to `g`; a red sibling is rotated above `g` and the repair starts
/// again one level down. Returns the new root and whether the deficit moved up.
fn solve_double_black<K: MapKey, V>(g: Box<Node<K, RBNode<V>>>, x_left: bool) -> (r: (Box<Node<K, RBNode<V>>>, bool))
    requires
        link_wf(Some(g)),
    ensures
        link_wf(Some(r.0)),
        rb_map(Some(r.0)) == rb_map(Some(g)),
        link_count(Some(r.0)) == link_count(Some(g)),
        short_at(*g, x_left) ==> rb_shape(Some(r.0)) && black_height(Some(r.0)) == full_height(*g, x_left) - (if r.1 {
            1int
        } else {
            0int
        }) && (red_root(Some(r.0)) ==> !g.value.is_black) && (r.1 ==> g.value.is_black),
        double_black_recolored(*g, x_left, *r.0, r.1),
    decreases link_count(Some(g)),
{
    let ghost g0 = *g;
    proof {
        lemma_short_parts(g0, x_left);
    }
    let p_flag = !x_left;
    let sib = if p_flag {
        &g.left
    } else {
        &g.right
    };
    let (s_black, v_red, v_flag) = match sib {
        None => (true, false, false),
        Some(s) => (s.value.is_black, !is_black(&s.left) || !is_black(&s.right), !is_black(&s.left)),
    };
    let mut g = g;
    if s_black && v_red {
        let g_black = g.value.is_black;
        let mut g1 = paint(g, true);
        let ghost g10 = *g1;
        if p_flag == v_flag {
            let t = if p_flag {
                rotate_right(g1)
            } else {
                rotate_left(g1)
            };
            let mut t = paint(t, g_black);
            let ghost t0 = *t;
            let nephew = take_child(&mut t, p_flag);
            let nephew = paint_link(nephew, true);
            put_child(&mut t, p_flag, nephew);
            proof {
                lemma_rebuilt(t0, *t);
                if short_at(g0, x_left) {
                    lemma_black_sibling_outer(g0, t0, *t, x_left);
                }
                assert(double_black_recolored(g0, x_left, *t, false));
            }
            (t, false)
        } else {
            match take_child(&mut g1, p_flag) {
                Some(s) => {
                    let ghost s0 = *s;
                    let s = paint(s, true);
                    let top = if p_flag {
                        rotate_left(s)
                    } else {
                        rotate_right(s)
                    };
                    let top = paint(top, g_black);
                    let ghost top0 = *top;
                    put_child(&mut g1, p_flag, Some(top));
                    proof {
                        lemma_size_is_count(Some(Box::new(g10)));
                        lemma_rebuilt(g10, *g1);
                    }
                    let ghost g11 = *g1;
                    let t = if p_flag {
                        rotate_right(g1)
                    } else {
                        rotate_left(g1)
                    };
                    proof {
                        if short_at(g0, x_left) {
                            lemma_black_sibling_inner(g0, s0, top0, *t, x_left);
                        }
                        assert(double_black_recolored(g0, x_left, *t, false));
                    }
                    (t, false)
                },
                None => (g1, false),
            }
        }
    } else if s_black {
        let g_black = g.value.is_black;
        let s = take_child(&mut g, p_flag);
        let s = paint_link(s, false);
        put_child(&mut g, p_flag, s);
        proof {
            lemma_size_is_count(Some(Box::new(g0)));
            lemma_rebuilt(g0, *g);
        }
        if g_black {
            proof {
                if short_at(g0, x_left) {
                    lemma_black_sibling_black_nephews(g0, *g, x_left);
                }
                assert(double_black_recolored(g0, x_left, *g, true));
            }
            (g, true)
        } else {
            let res = paint(g, true);
            proof {
                if short_at(g0, x_left) {
                    lemma_black_sibling_black_nephews(g0, *res, x_left);
                }
                assert(double_black_recolored(g0, x_left, *res, false));
            }
            (res, false)
        }
    } else {
        let g1 = paint(g, false);
        let t = if p_flag {
            rotate_right(g1)
        } else {
            rotate_left(g1)
        };
        let mut t = paint(t, true);
        let ghost t0 = *t;
        match take_child(&mut t, x_left) {
            Some(inner) => {
                proof {
                    assert(link_count(Some(inner)) < link_count(Some(Box::new(t0))));
                }
                let ghost inner0 = *inner;
                proof {
                    if short_at(g0, x_left) {
                        lemma_red_sibling_inner(g0, t0, inner0, x_left);
                    }
                }
                let (inner2, short) = solve_double_black(inner, x_left);
                put_child(&mut t, x_left, Some(inner2));
                proof {
                    lemma_size_is_count(Some(Box::new(t0)));
                    lemma_rebuilt(t0, *t);
                    if short_at(g0, x_left) {
                        lemma_red_sibling(g0, t0, inner0, *t, x_left);
                    }
                }
                (t, short)
            },
            None => (t, false),
        }
    }
}

/// What a removal below a red-black tree leaves of it: a red-black tree whose black height
/// is one less exactly when it is `short`, that is then not under a red link, and that is
/// under a red link only where the tree was.
pub open spec fn removal_left<K, V>(before: Option<Box<Node<K, RBNode<V>>>>, after: Option<Box<Node<K, RBNode<V>>>>, short: bool) -> bool {
    &&& rb_shape(after)
    &&& black_height(after) == black_height(before) - if short {
        1int
    } else {
        0int
    }
    &&& (short ==> !red_root(after))
    &&& (red_root(after) ==> red_root(before))
}

/// A node of a red-black tree whose subtree on the `left` side was replaced by what a
/// removal left of it: unless that is short, a red-black tree of the same black height;
/// else short of a black node on that side, to be repaired at the node.
proof fn lemma_child_removed<K, V>(n0: Node<K, RBNode<V>>, n1: Node<K, RBNode<V>>, left: bool, short: bool)
    requires
        rb_shape(Some(Box::new(n0))),
        n1.value.is_black == n0.value.is_black,
        left ==> n1.right == n0.right && removal_left(n0.left, n1.left, short),
        !left ==> n1.left == n0.left && removal_left(n0.right, n1.right, short),
    ensures
        !short ==> rb_shape(Some(Box::new(n1))) && black_height(Some(Box::new(n1))) == black_height(Some(Box::new(n0))),
        short ==> short_at(n1, left) && full_height(n1, left) == black_height(Some(Box::new(n0))),
{
    assert(rb_top(n0) && rb_shape(n0.left) && rb_shape(n0.right));
}

/// A removal whose result went through the repair at `n1` leaves, of the tree rooted at
/// `n0`, what a removal may leave.
proof fn lemma_repaired<K, V>(n0: Node<K, RBNode<V>>, n1: Node<K, RBNode<V>>, left: bool, t: Node<K, RBNode<V>>, still: bool)
    requires
        rb_shape(Some(Box::new(n0))),
        n1.value.is_black == n0.value.is_black,
        short_at(n1, left),
        full_height(n1, left) == black_height(Some(Box::new(n0))),
        rb_shape(Some(Box::new(t))),
        black_height(Some(Box::new(t))) == full_height(n1, left) - if still {
            1int
        } else {
            0int
        },
        red_root(Some(Box::new(t))) ==> !n1.value.is_black,
        still ==> n1.value.is_black,
    ensures
        removal_left(Some(Box::new(n0)), Some(Box::new(t)), still),
{
}

/// The only subtree of a node of a red-black tree whose other subtree is empty is empty
/// or a red node of black height zero, and empty under a red node.
proof fn lemma_lone_child<K, V>(n0: Node<K, RBNode<V>>, kept: Option<Box<Node<K, RBNode<V>>>>)
    requires
        rb_shape(Some(Box::new(n0))),
        n0.left is None || n0.right is None,
        n0.left is None ==> kept == n0.right,
        n0.right is None ==> kept == n0.left,
    ensures
        rb_shape(kept),
        black_height(kept) == 0,
        !n0.value.is_black ==> !red_root(kept),
        black_height(Some(Box::new(n0))) == if n0.value.is_black {
            1int
        } else {
            0int
        },
{
    if let Some(k) = kept {
        lemma_black_height_nonneg(k.left);
    }
}

/// Takes the place of a node that has at most one subtree, `kept`: when the node removed
/// was black, a red `kept` turns black, else the place is short of a black node, unless it
/// is the root of the whole tree, which only turns black.
fn replace_removed<K: MapKey, V>(kept: Option<Box<Node<K, RBNode<V>>>>, removed_black: bool, at_root: bool) -> (r: (
    Option<Box<Node<K, RBNode<V>>>>,
    bool,
))
    requires
        link_wf(kept),
    ensures
        link_wf(r.0),
        rb_map(r.0) == rb_map(kept),
        link_count(r.0) == link_count(kept),
        rb_shape(kept) && black_height(kept) == 0 && (!removed_black ==> !red_root(kept)) ==> rb_shape(r.0) && !red_root(r.0)
            && (at_root ==> !r.1) && (!at_root ==> black_height(r.0) == (if removed_black {
            1int
        } else {
            0int
        }) - if r.1 {
            1int
        } else {
            0int
        }),
{
    proof {
        if kept is Some {
            lemma_black_height_nonneg(kept->0.left);
            lemma_black_height_nonneg(kept->0.right);
        }
    }
    if at_root {
        (paint_link(kept, true), false)
    } else if removed_black {
        if is_black(&kept) {
            (kept, true)
        } else {
            (paint_link(kept, true), false)
        }
    } else {
        (kept, false)
    }
}

/// Removes the node with the smallest key from the red-black tree rooted at `node`, which
/// is not the root of the whole tree; returns the rest of the tree, the removed node, and
/// whether the rest is short of a black node on every path.
fn remove_min_rb<K: MapKey, V>(node: Box<Node<K, RBNode<V>>>) -> (r: (
    Option<Box<Node<K, RBNode<V>>>>,
    Box<Node<K, RBNode<V>>>,
    bool,
))
    requires
        link_wf(Some(node)),
    ensures
        link_wf(r.0),
        rb_map(Some(node)).dom().contains(r.1.key@),
        rb_map(Some(node))[r.1.key@] == r.1.value.elem,
        forall|k: K::V| #[trigger] rb_map(Some(node)).dom().contains(k) && k != r.1.key@ ==> key_lt::<K>(r.1.key@, k),
        rb_map(r.0) == rb_map(Some(node)).remove(r.1.key@),
        link_count(r.0) + 1 == link_count(Some(node)),
        rb_shape(Some(node)) ==> removal_left(Some(node), r.0, r.2),
    decreases link_count(Some(node)),
{
    let ghost n0 = *node;
    proof {
        lemma_elem_lookup::<K, V>(n0, n0.key@);
    }
    let mut node = node;
    match node.left.take() {
        None => {
            let right = node.right.take();
            proof {
                let m0 = rb_map(Some(Box::new(n0)));
                assert(rb_map(n0.left) =~= Map::<K::V, V>::empty());
                assert(rb_map(right) =~= m0.remove(n0.key@)) by {
                    assert forall|k: K::V| #[trigger] rb_map(right).dom().contains(k) implies k != n0.key@ by {
                        assert(link_map(right).dom().contains(k));
                        assert(key_lt::<K>(n0.key@, k));
                    }
                    assert forall|k: K::V| #[trigger] m0.dom().contains(k) && k != n0.key@ implies rb_map(right).dom().contains(k) by {
                        lemma_elem_lookup::<K, V>(n0, k);
                        lemma_lt_trichotomy::<K>(k, n0.key@);
                    }
                }
                assert forall|k: K::V| #[trigger] m0.dom().contains(k) && k != n0.key@ implies key_lt::<K>(n0.key@, k) by {
                    lemma_elem_lookup::<K, V>(n0, k);
                    lemma_lt_trichotomy::<K>(k, n0.key@);
                }
            }
            proof {
                if rb_shape(Some(Box::new(n0))) {
                    lemma_lone_child(n0, right);
                }
            }
            let (rest, short) = replace_removed(right, node.value.is_black, false);
            (rest, node, short)
        },
        Some(left) => {
            proof {
                assert(link_count(Some(left)) < link_count(Some(Box::new(n0))));
            }
            proof {
                if rb_shape(Some(Box::new(n0))) {
                    assert(rb_top(n0) && rb_shape(n0.left) && rb_shape(n0.right));
                }
            }
            let (rest, deleted, short) = remove_min_rb(left);
            node.left = rest;
            proof {
                lemma_size_is_count(node.left);
                lemma_size_is_count(node.right);
            }
            node.size = Node::size(&node.left) + Node::size(&node.right) + 1;
            proof {
                let m0 = rb_map(Some(Box::new(n0)));
                let m1 = rb_map(Some(node));
                let d = deleted.key@;
                assert(link_map(n0.left).dom().contains(d));
                assert(key_lt::<K>(d, n0.key@));
                lemma_elem_lookup::<K, V>(n0, d);
                assert forall|k: K::V| #[trigger] link_map(node.left).dom().contains(k) implies key_lt::<K>(k, node.key@) by {
                    assert(rb_map(node.left).dom().contains(k));
                    assert(rb_map(n0.left).dom().contains(k));
                }
                assert(link_wf(Some(node)));
                assert forall|k: K::V| #[trigger] m0.dom().contains(k) && k != d implies key_lt::<K>(d, k) by {
                    lemma_elem_lookup::<K, V>(n0, k);
                    lemma_lt_trichotomy::<K>(k, n0.key@);
                    if key_lt::<K>(n0.key@, k) {
                        lemma_lt_transitive::<K>(d, n0.key@, k);
                    }
                }
                assert forall|k: K::V| #[trigger] m1.dom().contains(k) == m0.remove(d).dom().contains(k) by {
                    lemma_elem_lookup::<K, V>(*node, k);
                    lemma_elem_lookup::<K, V>(n0, k);
                    lemma_lt_trichotomy::<K>(k, n0.key@);
                }
                assert forall|k: K::V| #[trigger] m1.dom().contains(k) implies m1[k] == m0.remove(d)[k] by {
                    lemma_elem_lookup::<K, V>(*node, k);
                    lemma_elem_lookup::<K, V>(n0, k);
                    lemma_lt_trichotomy::<K>(k, n0.key@);
                }
                assert(m1 =~= m0.remove(d));
            }
            if short {
                proof {
                    if rb_shape(Some(Box::new(n0))) {
                        lemma_child_removed(n0, *node, true, true);
                    }
                }
                let ghost n1 = *node;
                let (t, still) = solve_double_black(node, true);
                proof {
                    if rb_shape(Some(Box::new(n0))) {
                        lemma_repaired(n0, n1, true, *t, still);
                    }
                }
                (Some(t), deleted, still)
            } else {
                proof {
                    if rb_shape(Some(Box::new(n0))) {
                        lemma_child_removed(n0, *node, true, false);
                    }
                }
                (Some(node), deleted, false)
            }
        },
    }
}

/// Removes the entry for `key` from the red-black tree rooted at `node` (the root of the
/// whole tree when `at_root`); returns the rest of the tree, the removed value, if any,
/// and whether the rest is short of a black node on every path. A node with two subtrees
/// takes the entry of its successor, whose node is removed instead.
fn remove_rb<K: MapKey, V>(node: Box<Node<K, RBNode<V>>>, key: &K, at_root: bool) -> (r: (
    Option<Box<Node<K, RBNode<V>>>>,
    Option<V>,
    bool,
))
    requires
        link_wf(Some(node)),
    ensures
        link_wf(r.0),
        rb_map(r.0) == rb_map(Some(node)).remove(key@),
        match r.1 {
            Some(v) => rb_map(Some(node)).dom().contains(key@) && v == rb_map(Some(node))[key@] && link_count(r.0) + 1
                == link_count(Some(node)),
            None => !rb_map(Some(node)).dom().contains(key@) && link_count(r.0) == link_count(Some(node)),
        },
        rb_shape(Some(node)) ==> rb_shape(r.0),
        rb_shape(Some(node)) && !at_root ==> removal_left(Some(node), r.0, r.2),
    decreases link_count(Some(node)),
{
    let ghost n0 = *node;
    let ghost m_in = rb_map(Some(node));
    proof {
        lemma_elem_lookup::<K, V>(n0, key@);
    }
    let mut node = node;
    match key.compare(&node.key) {
        Cmp::Less => match node.left.take() {
            Some(left) => {
                proof {
                    assert(link_count(Some(left)) < link_count(Some(Box::new(n0))));
                }
                proof {
                    if rb_shape(Some(Box::new(n0))) {
                        assert(rb_top(n0) && rb_shape(n0.left) && rb_shape(n0.right));
                    }
                }
                let (rest, old, short) = remove_rb(left, key, false);
                node.left = rest;
                proof {
                    lemma_size_is_count(node.left);
                    lemma_size_is_count(node.right);
                }
                node.size = Node::size(&node.left) + Node::size(&node.right) + 1;
                proof {
                    lemma_child_changed::<K, V>(n0, *node, key@);
                }
                if short {
                    proof {
                        if rb_shape(Some(Box::new(n0))) {
                            lemma_child_removed(n0, *node, true, true);
                        }
                    }
                    let ghost n1 = *node;
                    let (t, still) = solve_double_black(node, true);
                    proof {
                        if rb_shape(Some(Box::new(n0))) {
                            lemma_repaired(n0, n1, true, *t, still);
                        }
                    }
                    (Some(t), old, still)
                } else {
                    proof {
                        if rb_shape(Some(Box::new(n0))) {
                            lemma_child_removed(n0, *node, true, false);
                        }
                    }
                    (Some(node), old, false)
                }
            },
            None => {
                proof {
                    assert(m_in.remove(key@) =~= m_in);
                }
                (Some(node), None, false)
            },
        },
        Cmp::Greater => match node.right.take() {
            Some(right) => {
                proof {
                    assert(link_count(Some(right)) < link_count(Some(Box::new(n0))));
                }
                proof {
                    if rb_shape(Some(Box::new(n0))) {
                        assert(rb_top(n0) && rb_shape(n0.left) && rb_shape(n0.right));
                    }
                }
                let (rest, old, short) = remove_rb(right, key, false);
                node.right = rest;
                proof {
                    lemma_size_is_count(node.left);
                    lemma_size_is_count(node.right);
                }
                node.size = Node::size(&node.left) + Node::size(&node.right) + 1;
                proof {
                    lemma_child_changed::<K, V>(n0, *node, key@);
                }
                if short {
                    proof {
                        if rb_shape(Some(Box::new(n0))) {
                            lemma_child_removed(n0, *node, false, true);
                        }
                    }
                    let ghost n1 = *node;
                    let (t, still) = solve_double_black(node, false);
                    proof {
                        if rb_shape(Some(Box::new(n0))) {
                            lemma_repaired(n0, n1, false, *t, still);
                        }
                    }
                    (Some(t), old, still)
                } else {
                    proof {
                        if rb_shape(Some(Box::new(n0))) {
                            lemma_child_removed(n0, *node, false, false);
                        }
                    }
                    (Some(node), old, false)
                }
            },
            None => {
                proof {
                    assert(m_in.remove(key@) =~= m_in);
                }
                (Some(node), None, false)
            },
        },
        Cmp::Equal => {
            if node.left.is_none() || node.right.is_none() {
                let kept = if node.left.is_none() {
                    node.right.take()
                } else {
                    node.left.take()
                };
                proof {
                    lemma_kept_subtree::<K, V>(n0, kept);
                    lemma_size_is_count(Some(Box::new(n0)));
                }
                proof {
                    if rb_shape(Some(Box::new(n0))) {
                        lemma_lone_child(n0, kept);
                    }
                }
                let (rest, short) = replace_removed(kept, node.value.is_black, at_root);
                (rest, Some(node.value.elem), short)
            } else {
                match node.right.take() {
                    Some(right) => {
                        proof {
                            assert(link_count(Some(right)) < link_count(Some(Box::new(n0))));
                        }
                        proof {
                            if rb_shape(Some(Box::new(n0))) {
                                assert(rb_top(n0) && rb_shape(n0.left) && rb_shape(n0.right));
                            }
                        }
                        let (rest, mut succ, short) = remove_min_rb(right);
                        let ghost m = succ.key@;
                        node.right = rest;
                        std::mem::swap(&mut node.key, &mut succ.key);
                        std::mem::swap(&mut node.value.elem, &mut succ.value.elem);
                        proof {
                            lemma_size_is_count(node.left);
                            lemma_size_is_count(node.right);
                        }
                        node.size = Node::size(&node.left) + Node::size(&node.right) + 1;
                        proof {
                            let m0 = rb_map(Some(Box::new(n0)));
                            let m1 = rb_map(Some(node));
                            assert(node.key@ == m);
                            assert(link_map(n0.right).dom().contains(m));
                            assert(key_lt::<K>(n0.key@, m));
                            assert forall|k: K::V| #[trigger] link_map(node.left).dom().contains(k) implies key_lt::<K>(k, node.key@) by {
                                lemma_lt_transitive::<K>(k, n0.key@, m);
                            }
                            assert forall|k: K::V| #[trigger] link_map(node.right).dom().contains(k) implies key_lt::<K>(node.key@, k) by {
                                assert(rb_map(node.right).dom().contains(k));
                                assert(rb_map(n0.right).dom().contains(k) && k != m);
                            }
                            assert(link_wf(Some(node)));
                            assert forall|k: K::V| #[trigger] m1.dom().contains(k) == m0.remove(key@).dom().contains(k) by {
                                lemma_elem_lookup::<K, V>(*node, k);
                                lemma_elem_lookup::<K, V>(n0, k);
                                lemma_lt_trichotomy::<K>(k, n0.key@);
                                lemma_lt_trichotomy::<K>(k, m);
                                if key_lt::<K>(k, n0.key@) && key_lt::<K>(m, k) {
                                    lemma_lt_transitive::<K>(n0.key@, m, k);
                                    lemma_lt_trichotomy::<K>(k, n0.key@);
                                }
                            }
                            assert forall|k: K::V| #[trigger] m1.dom().contains(k) implies m1[k] == m0.remove(key@)[k] by {
                                lemma_elem_lookup::<K, V>(*node, k);
                                lemma_elem_lookup::<K, V>(n0, k);
                                lemma_lt_trichotomy::<K>(k, n0.key@);
                                lemma_lt_trichotomy::<K>(k, m);
                                if key_lt::<K>(k, n0.key@) && key_lt::<K>(m, k) {
                                    lemma_lt_transitive::<K>(n0.key@, m, k);
                                    lemma_lt_trichotomy::<K>(k, n0.key@);
                                }
                            }
                            assert(m1 =~= m0.remove(key@));
                        }
                        if short {
                            proof {
                                if rb_shape(Some(Box::new(n0))) {
                                    lemma_child_removed(n0, *node, false, true);
                                }
                            }
                            let ghost n1 = *node;
                            let (t, still) = solve_double_black(node, false);
                            proof {
                                if rb_shape(Some(Box::new(n0))) {
                                    lemma_repaired(n0, n1, false, *t, still);
                                }
                            }
                            (Some(t), Some(succ.value.elem), still)
                        } else {
                            proof {
                                if rb_shape(Some(Box::new(n0))) {
                                    lemma_child_removed(n0, *node, false, false);
                                }
                            }
                            (Some(node), Some(succ.value.elem), false)
                        }
                    },
                    None => (Some(node), None, false),
                }
            }
        },
    }
}

/// The entries of a list without their colors.
pub open spec fn uncolored<K, V>(s: Seq<(K, RBNode<V>)>) -> Seq<(K, V)> {
    s.map_values(|p: (K, RBNode<V>)| (p.0, p.1.elem))
}

/// Dropping the colors from an in-order list of a tree's entries gives an in-order list
/// of the uncolored entries.
proof fn lemma_uncolored_in_order<K: MapKey, V>(items: Seq<(K, RBNode<V>)>, m: Map<K::V, RBNode<V>>)
    requires
        lists_in_order(items, m),
    ensures
        lists_in_order(uncolored(items), m.map_values(|c: RBNode<V>| c.elem)),
{
    let u = uncolored(items);
    let e = m.map_values(|c: RBNode<V>| c.elem);
    assert forall|i: int, j: int| 0 <= i < j < u.len() implies key_lt::<K>((#[trigger] u[i]).0@, (#[trigger] u[j]).0@) by {
        assert(u[i].0 == items[i].0 && u[j].0 == items[j].0);
    }
    assert forall|i: int| 0 <= i < u.len() implies e.dom().contains((#[trigger] u[i]).0@) && e[u[i].0@] == u[i].1 by {
        assert(u[i] == (items[i].0, items[i].1.elem));
    }
    assert forall|k: K::V| #[trigger] e.dom().contains(k) implies exists|i: int| 0 <= i < u.len() && (#[trigger] u[i]).0@ == k by {
        let i = choose|i: int| 0 <= i < items.len() && (#[trigger] items[i]).0@ == k;
        assert(u[i].0 == items[i].0);
    }
}

/// An ordered map kept in a red-black tree.
pub struct RBTreeMap<K, V> {
    bst: TreeMap<K, RBNode<V>>,
}

impl<K: MapKey, V> View for RBTreeMap<K, V> {
    type V = Map<K::V, V>;

    closed spec fn view(&self) -> Map<K::V, V> {
        rb_map(self.bst.root)
    }
}

impl<K: MapKey, V> RBTreeMap<K, V> {
    /// Keys in search order and node counts recorded right.
    pub closed spec fn wf(&self) -> bool {
        link_wf(self.bst.root)
    }

    /// The map holds finitely many entries.
    pub proof fn lemma_view_finite(&self)
        requires
            self.wf(),
        ensures
            self@.dom().finite(),
    {
        lemma_link_len(self.bst.root);
        assert(self@.dom() =~= link_map(self.bst.root).dom());
    }

    /// The tree is a red-black tree: every path down from the root meets as many black
    /// nodes, and no red node has a red child.
    pub closed spec fn is_balanced(&self) -> bool {
        rb_shape(self.bst.root)
    }

    /// Creates an empty map.
    pub fn new() -> (m: Self)
        ensures
            m.wf(),
            m.is_balanced(),
            m@ == Map::<K::V, V>::empty(),
    {
        let m = RBTreeMap { bst: TreeMap { root: None } };
        assert(m@ =~= Map::<K::V, V>::empty());
        m
    }

    /// The value stored under `key`, if any.
    pub fn get(&self, key: &K) -> (r: Option<&V>)
        requires
            self.wf(),
        ensures
            match r {
                Some(v) => self@.dom().contains(key@) && *v == self@[key@],
                None => !self@.dom().contains(key@),
            },
    {
        match Node::get(&self.bst.root, key) {
            Some(c) => Some(&c.elem),
            None => None,
        }
    }

    /// A mutable reference to the value stored under `key`, if any.
    pub fn get_mut(&mut self, key: &K) -> (r: Option<&mut V>)
        requires
            old(self).wf(),
        ensures
            final(self).wf(),
            old(self).is_balanced() ==> final(self).is_balanced(),
            match r {
                Some(v) => old(self)@.dom().contains(key@) && *v == old(self)@[key@] && final(self)@ == old(self)@.insert(
                    key@,
                    *final(v),
                ),
                None => !old(self)@.dom().contains(key@) && final(self)@ == old(self)@,
            },
    {
        match Node::get_mut(&mut self.bst.root, key) {
            Some(c) => {
                proof {
                    let link = old(self).bst.root;
                    assert forall|v: RBNode<V>| v.is_black == link_map(link)[key@].is_black && rb_shape(link) implies rb_shape(
                        #[trigger] set_value(link, key@, v),
                    ) by {
                        lemma_set_value_shape(link, key@, v);
                    }
                }
                Some(&mut c.elem)
            },
            None => None,
        }
    }

    /// Stores `value` under `key`, returning the value it replaced, if any.
    pub fn insert(&mut self, key: K, value: V) -> (r: Option<V>)
        requires
            old(self).wf(),
            old(self)@.len() < usize::MAX,
        ensures
            final(self).wf(),
            old(self).is_balanced() ==> final(self).is_balanced(),
            final(self)@ == old(self)@.insert(key@, value),
            old(self)@.dom().contains(key@) ==> r == Some(old(self)@[key@]),
            !old(self)@.dom().contains(key@) ==> r is None,
    {
        proof {
            lemma_link_len(self.bst.root);
            assert(self@.dom() =~= link_map(self.bst.root).dom());
        }
        let (root, old) = insert_rb(self.bst.root.take(), key, value);
        let b = paint(root, true);
        proof {
            assert(rb_top(*b) == rb_top(*root));
        }
        self.bst.root = Some(b);
        old
    }

    /// A mutable reference to the value stored under `key`, after inserting `default`
    /// under it when the key is absent.
    pub fn get_mut_or_insert(&mut self, key: K, default: V) -> (r: &mut V)
        requires
            old(self).wf(),
            old(self)@.len() < usize::MAX,
        ensures
            final(self).wf(),
            old(self).is_balanced() ==> final(self).is_balanced(),
            *r == if old(self)@.dom().contains(key@) {
                old(self)@[key@]
            } else {
                default
            },
            final(self)@ == old(self)@.insert(key@, *final(r)),
    {
        let probe = key.duplicate();
        if self.get(&probe).is_none() {
            self.insert(key, default);
        }
        self.get_mut(&probe).unwrap()
    }

    /// Removes the entry for `key`, returning its value, if any.
    pub fn remove(&mut self, key: &K) -> (r: Option<V>)
        requires
            old(self).wf(),
        ensures
            final(self).wf(),
            final(self)@ == old(self)@.remove(key@),
            old(self)@.dom().contains(key@) ==> r == Some(old(self)@[key@]),
            !old(self)@.dom().contains(key@) ==> r is None,
            old(self).is_balanced() ==> final(self).is_balanced(),
    {
        match self.bst.root.take() {
            Some(root) => {
                let (rest, old, _) = remove_rb(root, key, true);
                self.bst.root = rest;
                old
            },
            None => {
                assert(old(self)@.remove(key@) =~= old(self)@);
                None
            },
        }
    }

    /// The entries in increasing key order.
    pub fn iter(&self) -> (it: Iter<'_, K, V>)
        requires
            self.wf(),
        ensures
            lists_in_order(it.remaining(), self@),
    {
        proof {
            self.bst.lemma_parts();
        }
        let mut inner = self.bst.iter();
        let ghost all = inner.remaining();
        proof {
            lemma_uncolored_in_order(all, link_map(self.bst.root));
        }
        let mut out: Vec<(&K, &V)> = Vec::new();
        loop
            invariant
                pairs(out@) + uncolored(inner.remaining()) == uncolored(all),
            ensures
                pairs(out@) == uncolored(all),
            decreases inner.remaining().len(),
        {
            let ghost before = out@;
            let ghost rest = inner.remaining();
            match inner.next() {
                Some((k, c)) => {
                    out.push((k, &c.elem));
                    proof {
                        assert(pairs(out@) =~= pairs(before).push((*k, c.elem)));
                        assert(uncolored(rest) =~= seq![(*k, c.elem)] + uncolored(rest.drop_first()));
                        assert(pairs(out@) + uncolored(inner.remaining()) =~= pairs(before) + uncolored(rest));
                    }
                },
                None => {
                    assert(uncolored(inner.remaining()) =~= Seq::<(K, V)>::empty());
                    assert(pairs(out@) =~= pairs(out@) + uncolored(inner.remaining()));
                    break;
                },
            }
        }
        Iter::from_pairs(out)
    }

    /// The number of entries.
    pub fn len(&self) -> (n: usize)
        requires
            self.wf(),
        ensures
            n == self@.len(),
    {
        proof {
            lemma_link_len(self.bst.root);
            lemma_size_is_count(self.bst.root);
            assert(self@.dom() =~= link_map(self.bst.root).dom());
        }
        Node::size(&self.bst.root)
    }

    /// Whether the map has no entry.
    pub fn is_empty(&self) -> (b: bool)
        requires
            self.wf(),
        ensures
            b == (self@.len() == 0),
    {
        self.len() == 0
    }
}

impl<K: MapKey, V> Default for RBTreeMap<K, V> {
    fn default() -> (m: Self)
        ensures
            m.wf(),
            m.is_balanced(),
            m@ == Map::<K::V, V>::empty(),
    {
        RBTreeMap::new()
    }
}

impl<K: MapKey, V> OrderedMap<K, V> for RBTreeMap<K, V> {
    open spec fn contents(&self) -> Map<K::V, V> {
        self@
    }

    open spec fn valid(&self) -> bool {
        self.wf()
    }

    open spec fn can_grow(&self) -> bool {
        self@.len() < usize::MAX
    }

    fn get(&self, key: &K) -> (r: Option<&V>) {
        RBTreeMap::<K, V>::get(self, key)
    }

    fn get_mut(&mut self, key: &K) -> (r: Option<&mut V>) {
        RBTreeMap::<K, V>::get_mut(self, key)
    }

    fn insert(&mut self, key: K, value: V) -> (r: Option<V>) {
        RBTreeMap::<K, V>::insert(self, key, value)
    }

    fn get_mut_or_insert(&mut self, key: K, default: V) -> (r: &mut V) {
        RBTreeMap::<K, V>::get_mut_or_insert(self, key, default)
    }

    fn remove(&mut self, key: &K) -> (r: Option<V>) {
        RBTreeMap::<K, V>::remove(self, key)
    }

    fn len(&self) -> (n: usize) {
        RBTreeMap::<K, V>::len(self)
    }
}

} // verus!
