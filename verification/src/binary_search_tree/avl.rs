//! An ordered map kept in an AVL tree: a binary search tree whose nodes record their
//! heights, rebalanced by rotations wherever sibling subtrees come to differ in height by
//! two.

use vstd::prelude::*;
use super::{MapKey, OrderedMap, Cmp, key_lt, lemma_lt_transitive, lemma_lt_trichotomy};
use super::bst2::{
    Node, TreeMap, link_map, link_wf, link_count, lemma_lookup, lemma_size_is_count, lemma_link_len, rotate_left,
    rotate_right,
};

verus! {

/// A value together with the height of its node (0 for a leaf).
pub struct AVLNode<T> {
    pub elem: T,
    pub height: isize,
}

/// The entries of an AVL tree, without their heights.
pub open spec fn avl_map<K: View, V>(link: Option<Box<Node<K, AVLNode<V>>>>) -> Map<K::V, V> {
    link_map(link).map_values(|a: AVLNode<V>| a.elem)
}

/// The height of a tree: -1 when empty, 0 for a single node.
pub open spec fn link_height<K, V>(link: Option<Box<Node<K, V>>>) -> int
    decreases link,
{
    match link {
        None => -1,
        Some(n) => 1 + if link_height(n.left) >= link_height(n.right) {
            link_height(n.left)
        } else {
            link_height(n.right)
        },
    }
}

/// Every node records the height of the subtree it roots.
pub open spec fn heights_ok<K, V>(link: Option<Box<Node<K, AVLNode<V>>>>) -> bool
    decreases link,
{
    match link {
        None => true,
        Some(n) => n.value.height == link_height(link) && heights_ok(n.left) && heights_ok(n.right),
    }
}

/// At every node the heights of the two subtrees differ by at most one.
pub open spec fn avl_balanced<K, V>(link: Option<Box<Node<K, V>>>) -> bool
    decreases link,
{
    match link {
        None => true,
        Some(n) => -1 <= link_height(n.left) - link_height(n.right) <= 1 && avl_balanced(n.left) && avl_balanced(n.right),
    }
}

/// Search order, node counts and heights recorded right.
pub open spec fn avl_wf<K: MapKey, V>(link: Option<Box<Node<K, AVLNode<V>>>>) -> bool {
    link_wf(link) && heights_ok(link)
}

/// A tree is shorter than it has nodes.
proof fn lemma_height_bound<K, V>(link: Option<Box<Node<K, V>>>)
    ensures
        -1 <= link_height(link) < link_count(link),
    decreases link,
{
    if let Some(n) = link {
        lemma_height_bound(n.left);
        lemma_height_bound(n.right);
    }
}

/// Whether two trees hold the same keys with the same values, whatever their recorded heights.
pub open spec fn same_avl<K: View, V>(a: Option<Box<Node<K, AVLNode<V>>>>, b: Option<Box<Node<K, AVLNode<V>>>>) -> bool {
    &&& link_map(a).dom() == link_map(b).dom()
    &&& forall|k: K::V| #[trigger] link_map(a).dom().contains(k) ==> link_map(a)[k].elem == link_map(b)[k].elem
}

/// Two trees with the same keys and the same values but for their recorded heights hold
/// the same entries.
proof fn lemma_same_avl<K: MapKey, V>(a: Option<Box<Node<K, AVLNode<V>>>>, b: Option<Box<Node<K, AVLNode<V>>>>)
    requires
        link_map(a).dom() == link_map(b).dom(),
        forall|k: K::V| #[trigger] link_map(a).dom().contains(k) ==> link_map(a)[k].elem == link_map(b)[k].elem,
    ensures
        avl_map(a) == avl_map(b),
{
    assert(avl_map(a) =~= avl_map(b));
}

/// Nodes with the same key and value whose subtrees hold the same entries hold the same
/// entries.
proof fn lemma_same_avl_node<K: MapKey, V>(a: Node<K, AVLNode<V>>, b: Node<K, AVLNode<V>>)
    requires
        same_avl(a.left, b.left),
        same_avl(a.right, b.right),
        a.key@ == b.key@,
        a.value.elem == b.value.elem,
    ensures
        same_avl(Some(Box::new(a)), Some(Box::new(b))),
{
    let ma = link_map(Some(Box::new(a)));
    let mb = link_map(Some(Box::new(b)));
    assert(ma.dom() =~= mb.dom());
}

/// A tree with the same counts and entries as a well-formed one, whose subtrees are
/// well-formed, is well-formed.
proof fn lemma_wf_same_avl<K: MapKey, V>(a: Node<K, AVLNode<V>>, b: Node<K, AVLNode<V>>)
    requires
        link_wf(Some(Box::new(a))),
        link_wf(b.left),
        link_wf(b.right),
        same_avl(a.left, b.left),
        same_avl(a.right, b.right),
        a.key@ == b.key@,
        b.size == link_count(b.left) + link_count(b.right) + 1,
    ensures
        link_wf(Some(Box::new(b))),
{
}

/// Equal entry maps mean the same entries.
proof fn lemma_avl_map_same<K: MapKey, V>(a: Option<Box<Node<K, AVLNode<V>>>>, b: Option<Box<Node<K, AVLNode<V>>>>)
    requires
        avl_map(a) == avl_map(b),
    ensures
        same_avl(a, b),
{
    assert(link_map(a).dom() =~= avl_map(a).dom());
    assert(link_map(b).dom() =~= avl_map(b).dom());
    assert forall|k: K::V| #[trigger] link_map(a).dom().contains(k) implies link_map(a)[k].elem == link_map(b)[k].elem by {
        assert(avl_map(a).dom().contains(k));
        assert(avl_map(a)[k] == link_map(a)[k].elem);
        assert(avl_map(b).dom().contains(k));
        assert(avl_map(b)[k] == link_map(b)[k].elem);
        assert(avl_map(a)[k] == avl_map(b)[k]);
    }
}

/// Looking a key up in a node, for the entries without heights.
proof fn lemma_elem_lookup<K: MapKey, V>(n: Node<K, AVLNode<V>>, k: K::V)
    requires
        link_wf(Some(Box::new(n))),
    ensures
        k == n.key@ ==> avl_map(Some(Box::new(n))).dom().contains(k) && avl_map(Some(Box::new(n)))[k] == n.value.elem,
        key_lt::<K>(k, n.key@) ==> !avl_map(n.right).dom().contains(k) && (avl_map(Some(Box::new(n))).dom().contains(k)
            <==> avl_map(n.left).dom().contains(k)) && (avl_map(n.left).dom().contains(k) ==> avl_map(
            Some(Box::new(n)),
        )[k] == avl_map(n.left)[k]),
        key_lt::<K>(n.key@, k) ==> !avl_map(n.left).dom().contains(k) && (avl_map(Some(Box::new(n))).dom().contains(k)
            <==> avl_map(n.right).dom().contains(k)) && (avl_map(n.right).dom().contains(k) ==> avl_map(
            Some(Box::new(n)),
        )[k] == avl_map(n.right)[k]),
{
    lemma_lookup::<K, AVLNode<V>>(n, k);
}

/// The entries of a node whose subtree on one side changed: proved key by key from the
/// node's order.
proof fn lemma_child_changed<K: MapKey, V>(
    n0: Node<K, AVLNode<V>>,
    n1: Node<K, AVLNode<V>>,
    key: K::V,
)
    requires
        link_wf(Some(Box::new(n0))),
        link_wf(n1.left),
        link_wf(n1.right),
        n1.key == n0.key,
        n1.value.elem == n0.value.elem,
        n1.size == link_count(n1.left) + link_count(n1.right) + 1,
        key_lt::<K>(key, n0.key@) ==> n1.right == n0.right && avl_map(n1.left) == avl_map(n0.left).remove(key),
        key_lt::<K>(n0.key@, key) ==> n1.left == n0.left && avl_map(n1.right) == avl_map(n0.right).remove(key),
        key_lt::<K>(key, n0.key@) || key_lt::<K>(n0.key@, key),
    ensures
        link_wf(Some(Box::new(n1))),
        avl_map(Some(Box::new(n1))) == avl_map(Some(Box::new(n0))).remove(key),
{
    let m0 = avl_map(Some(Box::new(n0)));
    let m1 = avl_map(Some(Box::new(n1)));
    assert forall|k: K::V| #[trigger] link_map(n1.left).dom().contains(k) implies key_lt::<K>(k, n1.key@) by {
        assert(avl_map(n1.left).dom().contains(k));
        assert(avl_map(n0.left).dom().contains(k));
    }
    assert forall|k: K::V| #[trigger] link_map(n1.right).dom().contains(k) implies key_lt::<K>(n1.key@, k) by {
        assert(avl_map(n1.right).dom().contains(k));
        assert(avl_map(n0.right).dom().contains(k));
    }
    assert(link_wf(Some(Box::new(n1))));
    assert forall|k: K::V| #[trigger] m1.dom().contains(k) == m0.remove(key).dom().contains(k) by {
        lemma_elem_lookup::<K, V>(n1, k);
        lemma_elem_lookup::<K, V>(n0, k);
        lemma_lt_trichotomy::<K>(k, n0.key@);
        lemma_lt_trichotomy::<K>(key, n0.key@);
    }
    assert forall|k: K::V| #[trigger] m1.dom().contains(k) implies m1[k] == m0.remove(key)[k] by {
        lemma_elem_lookup::<K, V>(n1, k);
        lemma_elem_lookup::<K, V>(n0, k);
        lemma_lt_trichotomy::<K>(k, n0.key@);
        lemma_lt_trichotomy::<K>(key, n0.key@);
    }
    assert(m1 =~= m0.remove(key));
}

/// The height recorded at the root of `link` (-1 when empty).
fn height<K, V>(link: &Option<Box<Node<K, AVLNode<V>>>>) -> (h: isize)
    ensures
        heights_ok(*link) ==> h == link_height(*link),
        link is None ==> h == -1,
{
    match link {
        None => -1,
        Some(n) => n.value.height,
    }
}

/// Records at the root of `node` the height its subtrees give it.
fn update_height<K: MapKey, V>(node: Box<Node<K, AVLNode<V>>>) -> (r: Box<Node<K, AVLNode<V>>>)
    requires
        link_wf(Some(node)),
        heights_ok(node.left),
        heights_ok(node.right),
        link_count(Some(node)) <= isize::MAX,
    ensures
        link_wf(Some(r)),
        heights_ok(Some(r)),
        avl_map(Some(r)) == avl_map(Some(node)),
        link_count(Some(r)) == link_count(Some(node)),
        r.key == node.key,
        r.left == node.left,
        r.right == node.right,
{
    let ghost n0 = *node;
    proof {
        lemma_height_bound(node.left);
        lemma_height_bound(node.right);
    }
    let lh = height(&node.left);
    let rh = height(&node.right);
    let mut node = node;
    node.value.height = if lh >= rh {
        lh + 1
    } else {
        rh + 1
    };
    proof {
        assert(same_avl(n0.left, node.left));
        assert(same_avl(n0.right, node.right));
        lemma_wf_same_avl(n0, *node);
        lemma_same_avl_node(*node, n0);
        lemma_same_avl(Some(node), Some(Box::new(n0)));
    }
    node
}

/// Whether the subtrees of `node` differ in height by less than two.
fn is_avl_balanced<K, V>(node: &Node<K, AVLNode<V>>) -> (b: bool)
    requires
        heights_ok(node.left),
        heights_ok(node.right),
    ensures
        b == (-2 < link_height(node.left) - link_height(node.right) < 2),
{
    proof {
        lemma_height_bound(node.left);
        lemma_height_bound(node.right);
    }
    let bf = height(&node.left) as i128 - height(&node.right) as i128;
    -2 < bf && bf < 2
}

/// Whether the left subtree of `node` is taller than the right one.
fn left_taller<K, V>(node: &Node<K, AVLNode<V>>) -> (b: bool)
    requires
        heights_ok(node.left),
        heights_ok(node.right),
    ensures
        b == (link_height(node.left) > link_height(node.right)),
{
    height(&node.left) > height(&node.right)
}

/// Whether the right subtree of `node` is taller than the left one.
fn right_taller<K, V>(node: &Node<K, AVLNode<V>>) -> (b: bool)
    requires
        heights_ok(node.left),
        heights_ok(node.right),
    ensures
        b == (link_height(node.right) > link_height(node.left)),
{
    height(&node.right) > height(&node.left)
}

/// Rotates `node` to the right and records the heights of the two nodes that moved.
fn rotate_right_updated<K: MapKey, V>(node: Box<Node<K, AVLNode<V>>>) -> (r: Box<Node<K, AVLNode<V>>>)
    requires
        link_wf(Some(node)),
        node.left is Some,
        heights_ok(node.left),
        heights_ok(node.right),
        link_count(Some(node)) <= isize::MAX,
    ensures
        avl_wf(Some(r)),
        avl_map(Some(r)) == avl_map(Some(node)),
        link_count(Some(r)) == link_count(Some(node)),
        r.left == node.left->0.left,
        r.right is Some,
        r.right->0.left == node.left->0.right,
        r.right->0.right == node.right,
        r.key == node.left->0.key,
        r.right->0.key == node.key,
{
    let ghost n0 = *node;
    let mut x = rotate_right(node);
    let ghost x0 = *x;
    proof {
        assert(link_wf(x0.right));
        assert(link_wf(Some(x)));
        lemma_same_avl(Some(x), Some(Box::new(n0)));
        assert(link_count(x0.right) < link_count(Some(x)));
    }
    match x.right.take() {
        Some(g) => {
            proof {
                assert(heights_ok(g.left) && heights_ok(g.right));
            }
            let g2 = update_height(g);
            proof {
                lemma_avl_map_same(Some(g2), x0.right);
            }
            x.right = Some(g2);
            proof {
                assert(same_avl(x0.left, x.left));
                lemma_wf_same_avl(x0, *x);
                lemma_same_avl_node(*x, x0);
                lemma_same_avl(Some(x), Some(Box::new(x0)));
                assert(heights_ok(x.left));
            }
            update_height(x)
        },
        None => {
            proof {
                assert(false);
            }
            x
        },
    }
}

/// Rotates `node` to the left and records the heights of the two nodes that moved.
fn rotate_left_updated<K: MapKey, V>(node: Box<Node<K, AVLNode<V>>>) -> (r: Box<Node<K, AVLNode<V>>>)
    requires
        link_wf(Some(node)),
        node.right is Some,
        heights_ok(node.left),
        heights_ok(node.right),
        link_count(Some(node)) <= isize::MAX,
    ensures
        avl_wf(Some(r)),
        avl_map(Some(r)) == avl_map(Some(node)),
        link_count(Some(r)) == link_count(Some(node)),
        r.right == node.right->0.right,
        r.left is Some,
        r.left->0.right == node.right->0.left,
        r.left->0.left == node.left,
        r.key == node.right->0.key,
        r.left->0.key == node.key,
{
    let ghost n0 = *node;
    let mut x = rotate_left(node);
    let ghost x0 = *x;
    proof {
        assert(link_wf(x0.left));
        assert(link_wf(Some(x)));
        lemma_same_avl(Some(x), Some(Box::new(n0)));
        assert(link_count(x0.left) < link_count(Some(x)));
    }
    match x.left.take() {
        Some(g) => {
            proof {
                assert(heights_ok(g.left) && heights_ok(g.right));
            }
            let g2 = update_height(g);
            proof {
                lemma_avl_map_same(Some(g2), x0.left);
            }
            x.left = Some(g2);
            proof {
                assert(same_avl(x0.right, x.right));
                lemma_wf_same_avl(x0, *x);
                lemma_same_avl_node(*x, x0);
                lemma_same_avl(Some(x), Some(Box::new(x0)));
                assert(heights_ok(x.right));
            }
            update_height(x)
        },
        None => {
            proof {
                assert(false);
            }
            x
        },
    }
}

/// `r` is `g` rebuilt around the three nodes `g`, its child `p` on the `p_flag` side (left
/// when set) and that child's child `v` on the `v_flag` side: the middle one of the three
/// in key order on top, the smaller one as its left child and the larger one as its right
/// child, and the four subtrees that hung below the three, in key order, hung in that
/// order below the two lower nodes. When `v` is on the outer side it keeps its own two
/// subtrees.
pub open spec fn rebuilt<K, V>(g: Node<K, AVLNode<V>>, p_flag: bool, v_flag: bool, r: Node<K, AVLNode<V>>) -> bool {
    if p_flag {
        let p = g.left->0;
        if v_flag {
            &&& r.key == p.key
            &&& r.left == p.left
            &&& r.right is Some
            &&& r.right->0.key == g.key
            &&& r.right->0.left == p.right
            &&& r.right->0.right == g.right
        } else {
            let v = p.right->0;
            &&& r.key == v.key
            &&& r.left is Some && r.right is Some
            &&& r.left->0.key == p.key && r.left->0.left == p.left && r.left->0.right == v.left
            &&& r.right->0.key == g.key && r.right->0.left == v.right && r.right->0.right == g.right
        }
    } else {
        let p = g.right->0;
        if !v_flag {
            &&& r.key == p.key
            &&& r.right == p.right
            &&& r.left is Some
            &&& r.left->0.key == g.key
            &&& r.left->0.right == p.left
            &&& r.left->0.left == g.left
        } else {
            let v = p.left->0;
            &&& r.key == v.key
            &&& r.left is Some && r.right is Some
            &&& r.left->0.key == g.key && r.left->0.left == g.left && r.left->0.right == v.left
            &&& r.right->0.key == p.key && r.right->0.left == v.right && r.right->0.right == p.right
        }
    }
}

/// Restores balance at `node`, whose taller subtree leans by two: `p_flag` tells whether
/// that subtree is the left one and `v_flag` whether the taller subtree under it is its left
/// one. The two or three nodes involved are rearranged by one or two rotations and their
/// heights recorded anew.
fn rebalance_at<K: MapKey, V>(node: Box<Node<K, AVLNode<V>>>, p_flag: bool, v_flag: bool) -> (r: Box<
    Node<K, AVLNode<V>>,
>)
    requires
        link_wf(Some(node)),
        heights_ok(node.left),
        heights_ok(node.right),
        link_count(Some(node)) <= isize::MAX,
        p_flag ==> node.left is Some && (if v_flag {
            node.left->0.left is Some
        } else {
            node.left->0.right is Some
        }),
        !p_flag ==> node.right is Some && (if v_flag {
            node.right->0.left is Some
        } else {
            node.right->0.right is Some
        }),
    ensures
        avl_wf(Some(r)),
        avl_map(Some(r)) == avl_map(Some(node)),
        link_count(Some(r)) == link_count(Some(node)),
        p_flag && avl_balanced(node.left) && avl_balanced(node.right) && link_height(node.left) == link_height(node.right) + 2
            && (if v_flag {
            link_height(node.left->0.left) == link_height(node.left->0.right) + 1
        } else {
            link_height(node.left->0.right) == link_height(node.left->0.left) + 1
        }) ==> avl_balanced(Some(r)) && link_height(Some(r)) == link_height(node.left),
        !p_flag && avl_balanced(node.left) && avl_balanced(node.right) && link_height(node.right) == link_height(node.left) + 2
            && (if v_flag {
            link_height(node.right->0.left) == link_height(node.right->0.right) + 1
        } else {
            link_height(node.right->0.right) == link_height(node.right->0.left) + 1
        }) ==> avl_balanced(Some(r)) && link_height(Some(r)) == link_height(node.right),
        rebuilt(*node, p_flag, v_flag, *r),
        p_flag && v_flag && avl_balanced(node.left) && avl_balanced(node.right) && link_height(node.left)
            == link_height(node.right) + 2 && link_height(node.left->0.left) == link_height(node.left->0.right)
            ==> avl_balanced(Some(r)) && link_height(Some(r)) == link_height(node.left) + 1,
        !p_flag && !v_flag && avl_balanced(node.left) && avl_balanced(node.right) && link_height(node.right)
            == link_height(node.left) + 2 && link_height(node.right->0.left) == link_height(node.right->0.right)
            ==> avl_balanced(Some(r)) && link_height(Some(r)) == link_height(node.right) + 1,
{
    let ghost n0 = *node;
    if p_flag && v_flag {
        let r = rotate_right_updated(node);
        proof {
            let a = n0.left->0;
            let t = r.right->0;
            assert(link_height(Some(a)) == link_height(n0.left));
            assert(link_height(r.right) == 1 + if link_height(t.left) >= link_height(t.right) {
                link_height(t.left)
            } else {
                link_height(t.right)
            });
            if avl_balanced(n0.left) && avl_balanced(n0.right) && link_height(n0.left) == link_height(n0.right) + 2
                && link_height(a.left) == link_height(a.right) + 1 {
                assert(avl_balanced(a.left) && avl_balanced(a.right));
                assert(link_height(r.right) == link_height(n0.right) + 1);
                assert(avl_balanced(r.right));
                assert(avl_balanced(Some(r)));
                assert(link_height(Some(r)) == link_height(n0.left));
            }
            if avl_balanced(n0.left) && avl_balanced(n0.right) && link_height(n0.left) == link_height(n0.right) + 2
                && link_height(a.left) == link_height(a.right) {
                assert(avl_balanced(a.left) && avl_balanced(a.right));
                assert(link_height(r.right) == link_height(n0.right) + 2);
                assert(avl_balanced(r.right));
                assert(avl_balanced(Some(r)));
                assert(link_height(Some(r)) == link_height(n0.left) + 1);
            }
        }
        r
    } else if !p_flag && !v_flag {
        let r = rotate_left_updated(node);
        proof {
            let a = n0.right->0;
            let t = r.left->0;
            assert(link_height(Some(a)) == link_height(n0.right));
            assert(link_height(r.left) == 1 + if link_height(t.left) >= link_height(t.right) {
                link_height(t.left)
            } else {
                link_height(t.right)
            });
            if avl_balanced(n0.left) && avl_balanced(n0.right) && link_height(n0.right) == link_height(n0.left) + 2
                && link_height(a.right) == link_height(a.left) + 1 {
                assert(avl_balanced(a.left) && avl_balanced(a.right));
                assert(link_height(r.left) == link_height(n0.left) + 1);
                assert(avl_balanced(r.left));
                assert(avl_balanced(Some(r)));
                assert(link_height(Some(r)) == link_height(n0.right));
            }
            if avl_balanced(n0.left) && avl_balanced(n0.right) && link_height(n0.right) == link_height(n0.left) + 2
                && link_height(a.left) == link_height(a.right) {
                assert(avl_balanced(a.left) && avl_balanced(a.right));
                assert(link_height(r.left) == link_height(n0.left) + 2);
                assert(avl_balanced(r.left));
                assert(avl_balanced(Some(r)));
                assert(link_height(Some(r)) == link_height(n0.right) + 1);
            }
        }
        r
    } else if p_flag {
        let mut node = node;
        match node.left.take() {
            Some(p) => {
                proof {
                    assert(link_count(Some(p)) < link_count(Some(Box::new(n0))));
                }
                let p2 = rotate_left_updated(p);
                proof {
                    lemma_avl_map_same(Some(p2), n0.left);
                }
                node.left = Some(p2);
                proof {
                    assert(same_avl(n0.right, node.right));
                    lemma_wf_same_avl(n0, *node);
                    lemma_same_avl_node(*node, n0);
                    lemma_same_avl(Some(node), Some(Box::new(n0)));
                }
                let r = rotate_right_updated(node);
                proof {
                    let a = n0.left->0;
                    let g = a.right->0;
                    let lo = r.left->0;
                    let hi = r.right->0;
                    assert(lo.left == a.left && lo.right == g.left);
                    assert(hi.left == g.right && hi.right == n0.right);
                    assert(link_height(Some(a)) == link_height(n0.left));
                    assert(link_height(a.right) == 1 + if link_height(g.left) >= link_height(g.right) {
                        link_height(g.left)
                    } else {
                        link_height(g.right)
                    });
                    assert(link_height(r.left) == 1 + if link_height(lo.left) >= link_height(lo.right) {
                        link_height(lo.left)
                    } else {
                        link_height(lo.right)
                    });
                    assert(link_height(r.right) == 1 + if link_height(hi.left) >= link_height(hi.right) {
                        link_height(hi.left)
                    } else {
                        link_height(hi.right)
                    });
                    if avl_balanced(n0.left) && avl_balanced(n0.right) && link_height(n0.left) == link_height(n0.right) + 2
                        && link_height(a.right) == link_height(a.left) + 1 {
                        assert(avl_balanced(a.left) && avl_balanced(a.right));
                        assert(avl_balanced(g.left) && avl_balanced(g.right));
                        assert(avl_balanced(r.left));
                        assert(avl_balanced(r.right));
                        assert(avl_balanced(Some(r)));
                        assert(link_height(Some(r)) == link_height(n0.left));
                    }
                }
                r
            },
            None => node,
        }
    } else {
        let mut node = node;
        match node.right.take() {
            Some(p) => {
                proof {
                    assert(link_count(Some(p)) < link_count(Some(Box::new(n0))));
                }
                let p2 = rotate_right_updated(p);
                proof {
                    lemma_avl_map_same(Some(p2), n0.right);
                }
                node.right = Some(p2);
                proof {
                    assert(same_avl(n0.left, node.left));
                    lemma_wf_same_avl(n0, *node);
                    lemma_same_avl_node(*node, n0);
                    lemma_same_avl(Some(node), Some(Box::new(n0)));
                }
                let r = rotate_left_updated(node);
                proof {
                    let a = n0.right->0;
                    let g = a.left->0;
                    let lo = r.left->0;
                    let hi = r.right->0;
                    assert(hi.right == a.right && hi.left == g.right);
                    assert(lo.right == g.left && lo.left == n0.left);
                    assert(link_height(Some(a)) == link_height(n0.right));
                    assert(link_height(a.left) == 1 + if link_height(g.left) >= link_height(g.right) {
                        link_height(g.left)
                    } else {
                        link_height(g.right)
                    });
                    assert(link_height(r.left) == 1 + if link_height(lo.left) >= link_height(lo.right) {
                        link_height(lo.left)
                    } else {
                        link_height(lo.right)
                    });
                    assert(link_height(r.right) == 1 + if link_height(hi.left) >= link_height(hi.right) {
                        link_height(hi.left)
                    } else {
                        link_height(hi.right)
                    });
                    if avl_balanced(n0.left) && avl_balanced(n0.right) && link_height(n0.right) == link_height(n0.left) + 2
                        && link_height(a.left) == link_height(a.right) + 1 {
                        assert(avl_balanced(a.left) && avl_balanced(a.right));
                        assert(avl_balanced(g.left) && avl_balanced(g.right));
                        assert(avl_balanced(r.left));
                        assert(avl_balanced(r.right));
                        assert(avl_balanced(Some(r)));
                        assert(link_height(Some(r)) == link_height(n0.right));
                    }
                }
                r
            },
            None => node,
        }
    }
}

/// Brings `node`, whose subtrees are AVL trees of heights differing by at most two, back
/// in order: records its height when its subtrees are balanced, else rebalances it towards
/// its taller child and that child's taller child (the outer one, on the same side, on a
/// tie, so that a single rotation keeps the tree balanced).
fn restore<K: MapKey, V>(node: Box<Node<K, AVLNode<V>>>) -> (r: Box<Node<K, AVLNode<V>>>)
    requires
        link_wf(Some(node)),
        heights_ok(node.left),
        heights_ok(node.right),
        link_count(Some(node)) <= isize::MAX,
    ensures
        avl_wf(Some(r)),
        avl_map(Some(r)) == avl_map(Some(node)),
        link_count(Some(r)) == link_count(Some(node)),
        avl_balanced(node.left) && avl_balanced(node.right) && -1 <= link_height(node.left) - link_height(node.right) <= 1
            ==> avl_balanced(Some(r)) && link_height(Some(r)) == link_height(Some(node)) && r.left == node.left && r.right
            == node.right,
        avl_balanced(node.left) && avl_balanced(node.right) && link_height(node.left) == link_height(node.right) + 2
            && link_height(node.left->0.left) != link_height(node.left->0.right) ==> avl_balanced(Some(r)) && link_height(
            Some(r),
        ) == link_height(node.left),
        avl_balanced(node.left) && avl_balanced(node.right) && link_height(node.right) == link_height(node.left) + 2
            && link_height(node.right->0.left) != link_height(node.right->0.right) ==> avl_balanced(Some(r)) && link_height(
            Some(r),
        ) == link_height(node.right),
        avl_balanced(node.left) && avl_balanced(node.right) && -2 <= link_height(node.left) - link_height(node.right) <= 2
            ==> avl_balanced(Some(r)) && link_height(node.left) <= link_height(Some(r)) <= link_height(node.left) + 1
            + if link_height(node.left) >= link_height(node.right) { 0int } else { link_height(node.right) - link_height(node.left) }
            && link_height(node.right) <= link_height(Some(r)),
{
    if is_avl_balanced(&node) {
        update_height(node)
    } else {
        let p_flag = left_taller(&node);
        let v_flag = if p_flag {
            match &node.left {
                Some(p) => !right_taller(p),
                None => false,
            }
        } else {
            match &node.right {
                Some(p) => left_taller(p),
                None => false,
            }
        };
        proof {
            if node.left is Some {
                lemma_height_bound(node.left->0.left);
                lemma_height_bound(node.left->0.right);
            }
            if node.right is Some {
                lemma_height_bound(node.right->0.left);
                lemma_height_bound(node.right->0.right);
            }
            lemma_height_bound(node.left);
            lemma_height_bound(node.right);
            if avl_balanced(node.left) && node.left is Some {
                let a = node.left->0;
                assert(-1 <= link_height(a.left) - link_height(a.right) <= 1);
            }
            if avl_balanced(node.right) && node.right is Some {
                let a = node.right->0;
                assert(-1 <= link_height(a.left) - link_height(a.right) <= 1);
            }
        }
        rebalance_at(node, p_flag, v_flag)
    }
}

/// Stores `value` under `key` in the AVL tree hanging from `link`, rebalancing on the way
/// back up; returns the new root and the value that `key` held before, if any (its stored
/// key and recorded height are kept).
fn insert_at<K: MapKey, V>(link: Option<Box<Node<K, AVLNode<V>>>>, key: K, value: V) -> (r: (
    Box<Node<K, AVLNode<V>>>,
    Option<V>,
))
    requires
        avl_wf(link),
        link_count(link) < isize::MAX,
    ensures
        avl_wf(Some(r.0)),
        avl_map(Some(r.0)) == avl_map(link).insert(key@, value),
        avl_map(link).dom().contains(key@) ==> r.1 == Some(avl_map(link)[key@]) && link_count(Some(r.0))
            == link_count(link),
        !avl_map(link).dom().contains(key@) ==> r.1 is None && link_count(Some(r.0)) == link_count(link) + 1,
        avl_balanced(link) ==> avl_balanced(Some(r.0)),
        avl_balanced(link) ==> link_height(link) <= link_height(Some(r.0)) <= link_height(link) + 1,
        avl_balanced(link) && link_height(Some(r.0)) == link_height(link) + 1 ==> link_height(Some(r.0)) == 0
            || link_height(r.0.left) != link_height(r.0.right),
    decreases link,
{
    match link {
        None => {
            let n = Box::new(Node::new(key, AVLNode { elem: value, height: 0 }));
            proof {
                assert(link_height(n.left) == -1 && link_height(n.right) == -1);
                assert(link_height(Some(n)) == 0);
                assert(heights_ok(Some(n)));
                assert(avl_map(Some(n)) =~= avl_map(link).insert(key@, value));
            }
            (n, None)
        },
        Some(mut node) => {
            let ghost n0 = *node;
            proof {
                lemma_elem_lookup::<K, V>(n0, key@);
            }
            let old = match key.compare(&node.key) {
                Cmp::Less => {
                    let (child, old) = insert_at(node.left.take(), key, value);
                    node.left = Some(child);
                    old
                },
                Cmp::Greater => {
                    let (child, old) = insert_at(node.right.take(), key, value);
                    node.right = Some(child);
                    old
                },
                Cmp::Equal => {
                    let mut old = value;
                    std::mem::swap(&mut node.value.elem, &mut old);
                    Some(old)
                },
            };
            proof {
                lemma_size_is_count(node.left);
                lemma_size_is_count(node.right);
            }
            node.size = Node::size(&node.left) + Node::size(&node.right) + 1;
            proof {
                let m0 = avl_map(Some(Box::new(n0)));
                let m1 = avl_map(Some(node));
                assert forall|k: K::V| #[trigger] link_map(node.left).dom().contains(k) implies key_lt::<K>(k, node.key@) by {
                    assert(avl_map(node.left).dom().contains(k));
                    if k != key@ {
                        assert(avl_map(n0.left).dom().contains(k));
                    }
                }
                assert forall|k: K::V| #[trigger] link_map(node.right).dom().contains(k) implies key_lt::<K>(node.key@, k) by {
                    assert(avl_map(node.right).dom().contains(k));
                    if k != key@ {
                        assert(avl_map(n0.right).dom().contains(k));
                    }
                }
                assert(link_wf(Some(node)));
                assert forall|k: K::V| #[trigger] m1.dom().contains(k) == m0.insert(key@, value).dom().contains(k) by {
                    lemma_elem_lookup::<K, V>(*node, k);
                    lemma_elem_lookup::<K, V>(n0, k);
                    lemma_lt_trichotomy::<K>(k, n0.key@);
                }
                assert forall|k: K::V| #[trigger] m1.dom().contains(k) implies m1[k] == m0.insert(key@, value)[k] by {
                    lemma_elem_lookup::<K, V>(*node, k);
                    lemma_elem_lookup::<K, V>(n0, k);
                    lemma_lt_trichotomy::<K>(k, n0.key@);
                }
                assert(m1 =~= m0.insert(key@, value));
                lemma_height_bound(n0.left);
                lemma_height_bound(n0.right);
                lemma_height_bound(node.left);
                lemma_height_bound(node.right);
                if avl_balanced(link) {
                    assert(avl_balanced(n0.left) && avl_balanced(n0.right));
                    assert(-1 <= link_height(n0.left) - link_height(n0.right) <= 1);
                    assert(link_height(link) == 1 + if link_height(n0.left) >= link_height(n0.right) {
                        link_height(n0.left)
                    } else {
                        link_height(n0.right)
                    });
                    if node.left is Some {
                        let c = node.left->0;
                        assert(link_height(node.left) == 1 + if link_height(c.left) >= link_height(c.right) {
                            link_height(c.left)
                        } else {
                            link_height(c.right)
                        });
                    }
                    if node.right is Some {
                        let c = node.right->0;
                        assert(link_height(node.right) == 1 + if link_height(c.left) >= link_height(c.right) {
                            link_height(c.left)
                        } else {
                            link_height(c.right)
                        });
                    }
                }
            }
            let ghost n1 = *node;
            let r = restore(node);
            proof {
                if avl_balanced(link) {
                    assert(link_height(Some(Box::new(n1))) == 1 + if link_height(n1.left) >= link_height(n1.right) {
                        link_height(n1.left)
                    } else {
                        link_height(n1.right)
                    });
                    assert(link_height(Some(r)) == 1 + if link_height(r.left) >= link_height(r.right) {
                        link_height(r.left)
                    } else {
                        link_height(r.right)
                    });
                }
            }
            (r, old)
        },
    }
}

/// Removes the node with the smallest key from the AVL tree rooted at `node`, rebalancing
/// on the way back up; returns the rest of the tree and the removed node.
fn remove_min<K: MapKey, V>(node: Box<Node<K, AVLNode<V>>>) -> (r: (
    Option<Box<Node<K, AVLNode<V>>>>,
    Box<Node<K, AVLNode<V>>>,
))
    requires
        avl_wf(Some(node)),
        link_count(Some(node)) <= isize::MAX,
    ensures
        avl_wf(r.0),
        avl_map(Some(node)).dom().contains(r.1.key@),
        avl_map(Some(node))[r.1.key@] == r.1.value.elem,
        forall|k: K::V| #[trigger] avl_map(Some(node)).dom().contains(k) && k != r.1.key@ ==> key_lt::<K>(r.1.key@, k),
        avl_map(r.0) == avl_map(Some(node)).remove(r.1.key@),
        link_count(r.0) + 1 == link_count(Some(node)),
        avl_balanced(Some(node)) ==> avl_balanced(r.0) && link_height(Some(node)) - 1 <= link_height(r.0) <= link_height(
            Some(node),
        ),
    decreases link_count(Some(node)),
{
    let ghost n0 = *node;
    proof {
        lemma_elem_lookup::<K, V>(n0, n0.key@);
    }
    let mut node = node;
    match node.left.take() {
        None => {
            let right = node.right.take();
            proof {
                let m0 = avl_map(Some(Box::new(n0)));
                assert(avl_map(n0.left) =~= Map::<K::V, V>::empty());
                assert(avl_map(right) =~= m0.remove(n0.key@)) by {
                    assert forall|k: K::V| #[trigger] avl_map(right).dom().contains(k) implies k != n0.key@ by {
                        assert(link_map(right).dom().contains(k));
                        assert(key_lt::<K>(n0.key@, k));
                    }
                    assert forall|k: K::V| #[trigger] m0.dom().contains(k) && k != n0.key@ implies avl_map(right).dom().contains(k) by {
                        lemma_elem_lookup::<K, V>(n0, k);
                        lemma_lt_trichotomy::<K>(k, n0.key@);
                    }
                }
                assert forall|k: K::V| #[trigger] m0.dom().contains(k) && k != n0.key@ implies key_lt::<K>(n0.key@, k) by {
                    lemma_elem_lookup::<K, V>(n0, k);
                    lemma_lt_trichotomy::<K>(k, n0.key@);
                }
                lemma_height_bound(n0.right);
                if avl_balanced(Some(Box::new(n0))) {
                    assert(avl_balanced(n0.right));
                    assert(link_height(Some(Box::new(n0))) == 1 + link_height(n0.right));
                }
            }
            (right, node)
        },
        Some(left) => {
            proof {
                assert(link_count(Some(left)) < link_count(Some(Box::new(n0))));
            }
            let (rest, deleted) = remove_min(left);
            node.left = rest;
            proof {
                lemma_size_is_count(node.left);
                lemma_size_is_count(node.right);
            }
            node.size = Node::size(&node.left) + Node::size(&node.right) + 1;
            proof {
                let m0 = avl_map(Some(Box::new(n0)));
                let m1 = avl_map(Some(node));
                let d = deleted.key@;
                assert(link_map(n0.left).dom().contains(d));
                assert(key_lt::<K>(d, n0.key@));
                lemma_elem_lookup::<K, V>(n0, d);
                assert forall|k: K::V| #[trigger] link_map(node.left).dom().contains(k) implies key_lt::<K>(k, node.key@) by {
                    assert(avl_map(node.left).dom().contains(k));
                    assert(avl_map(n0.left).dom().contains(k));
                }
                assert(link_wf(Some(node)));
                assert forall|k: K::V| #[trigger] m0.dom().contains(k) && k != d implies key_lt::<K>(d, k) by {
                    lemma_elem_lookup::<K, V>(n0, k);
                    lemma_lt_trichotomy::<K>(k, n0.key@);
                    if key_lt::<K>(n0.key@, k) {
                        lemma_lt_transitive::<K>(d, n0.key@, k);
                    }
                }
                assert forall|k: K::V| #[trigger] m1.dom().contains(k) == m0.remove(d).dom().contains(k) by {
                    lemma_elem_lookup::<K, V>(*node, k);
                    lemma_elem_lookup::<K, V>(n0, k);
                    lemma_lt_trichotomy::<K>(k, n0.key@);
                }
                assert forall|k: K::V| #[trigger] m1.dom().contains(k) implies m1[k] == m0.remove(d)[k] by {
                    lemma_elem_lookup::<K, V>(*node, k);
                    lemma_elem_lookup::<K, V>(n0, k);
                    lemma_lt_trichotomy::<K>(k, n0.key@);
                }
                assert(m1 =~= m0.remove(d));
            }
let ghost n1 = *node;
            let res = restore(node);
            proof {
                if avl_balanced(Some(Box::new(n0))) {
                    assert(avl_balanced(n0.left) && avl_balanced(n0.right));
                    assert(link_height(Some(Box::new(n0))) == 1 + if link_height(n0.left) >= link_height(n0.right) {
                        link_height(n0.left)
                    } else {
                        link_height(n0.right)
                    });
                    assert(link_height(Some(Box::new(n1))) == 1 + if link_height(n1.left) >= link_height(n1.right) {
                        link_height(n1.left)
                    } else {
                        link_height(n1.right)
                    });
                }
            }
            (Some(res), deleted)
        },
    }
}

/// The entries of a tree that lost the node holding `key` and kept one of its subtrees.
proof fn lemma_kept_subtree<K: MapKey, V>(n0: Node<K, AVLNode<V>>, kept: Option<Box<Node<K, AVLNode<V>>>>)
    requires
        link_wf(Some(Box::new(n0))),
        n0.left is None || n0.right is None,
        n0.left is None ==> kept == n0.right,
        n0.right is None ==> kept == n0.left,
    ensures
        avl_map(kept) == avl_map(Some(Box::new(n0))).remove(n0.key@),
{
    let m0 = avl_map(Some(Box::new(n0)));
    assert forall|k: K::V| #[trigger] avl_map(kept).dom().contains(k) implies k != n0.key@ by {
        assert(link_map(kept).dom().contains(k));
    }
    assert forall|k: K::V| #[trigger] m0.dom().contains(k) && k != n0.key@ implies avl_map(kept).dom().contains(k) by {
        lemma_elem_lookup::<K, V>(n0, k);
        lemma_lt_trichotomy::<K>(k, n0.key@);
        assert(link_map(n0.left).dom().contains(k) || link_map(n0.right).dom().contains(k));
    }
    assert forall|k: K::V| #[trigger] avl_map(kept).dom().contains(k) implies avl_map(kept)[k] == m0.remove(n0.key@)[k] by {
        assert(link_map(kept).dom().contains(k));
        lemma_elem_lookup::<K, V>(n0, k);
        lemma_lt_trichotomy::<K>(k, n0.key@);
    }
    assert(avl_map(kept) =~= m0.remove(n0.key@));
}

/// Removes the entry for `key` from the AVL tree rooted at `node`, rebalancing on the way
/// back up; returns the rest of the tree and the removed value, if any. A node with two
/// subtrees takes the entry of its successor, whose node is removed instead.
fn remove_at<K: MapKey, V>(node: Box<Node<K, AVLNode<V>>>, key: &K) -> (r: (
    Option<Box<Node<K, AVLNode<V>>>>,
    Option<V>,
))
    requires
        avl_wf(Some(node)),
        link_count(Some(node)) <= isize::MAX,
    ensures
        avl_wf(r.0),
        avl_map(r.0) == avl_map(Some(node)).remove(key@),
        match r.1 {
            Some(v) => avl_map(Some(node)).dom().contains(key@) && v == avl_map(Some(node))[key@] && link_count(r.0) + 1
                == link_count(Some(node)),
            None => !avl_map(Some(node)).dom().contains(key@) && link_count(r.0) == link_count(Some(node)),
        },
        avl_balanced(Some(node)) ==> avl_balanced(r.0) && link_height(Some(node)) - 1 <= link_height(r.0) <= link_height(
            Some(node),
        ),
    decreases link_count(Some(node)),
{
    let ghost n0 = *node;
    let ghost m_in = avl_map(Some(node));
    proof {
        lemma_elem_lookup::<K, V>(n0, key@);
    }
    let mut node = node;
    match key.compare(&node.key) {
        Cmp::Less => match node.left.take() {
            Some(left) => {
                proof {
                    assert(link_count(Some(left)) < link_count(Some(Box::new(n0))));
                }
                let (rest, old) = remove_at(left, key);
                node.left = rest;
                proof {
                    lemma_size_is_count(node.left);
                    lemma_size_is_count(node.right);
                }
                node.size = Node::size(&node.left) + Node::size(&node.right) + 1;
                proof {
                    lemma_child_changed::<K, V>(n0, *node, key@);
                }
let ghost n1 = *node;
                let res = restore(node);
                proof {
                    if avl_balanced(Some(Box::new(n0))) {
                        assert(avl_balanced(n0.left) && avl_balanced(n0.right));
                        assert(link_height(Some(Box::new(n0))) == 1 + if link_height(n0.left) >= link_height(n0.right) {
                            link_height(n0.left)
                        } else {
                            link_height(n0.right)
                        });
                        assert(link_height(Some(Box::new(n1))) == 1 + if link_height(n1.left) >= link_height(n1.right) {
                            link_height(n1.left)
                        } else {
                            link_height(n1.right)
                        });
                    }
                }
                (Some(res), old)
            },
            None => {
                proof {
                    assert(m_in.remove(key@) =~= m_in);
                }
                (Some(node), None)
            },
        },
        Cmp::Greater => match node.right.take() {
            Some(right) => {
                proof {
                    assert(link_count(Some(right)) < link_count(Some(Box::new(n0))));
                }
                let (rest, old) = remove_at(right, key);
                node.right = rest;
                proof {
                    lemma_size_is_count(node.left);
                    lemma_size_is_count(node.right);
                }
                node.size = Node::size(&node.left) + Node::size(&node.right) + 1;
                proof {
                    lemma_child_changed::<K, V>(n0, *node, key@);
                }
let ghost n1 = *node;
                let res = restore(node);
                proof {
                    if avl_balanced(Some(Box::new(n0))) {
                        assert(avl_balanced(n0.left) && avl_balanced(n0.right));
                        assert(link_height(Some(Box::new(n0))) == 1 + if link_height(n0.left) >= link_height(n0.right) {
                            link_height(n0.left)
                        } else {
                            link_height(n0.right)
                        });
                        assert(link_height(Some(Box::new(n1))) == 1 + if link_height(n1.left) >= link_height(n1.right) {
                            link_height(n1.left)
                        } else {
                            link_height(n1.right)
                        });
                    }
                }
                (Some(res), old)
            },
            None => {
                proof {
                    assert(m_in.remove(key@) =~= m_in);
                }
                (Some(node), None)
            },
        },
        Cmp::Equal => {
            if node.left.is_none() {
                let right = node.right.take();
                proof {
                    lemma_kept_subtree::<K, V>(n0, right);
                    lemma_size_is_count(Some(Box::new(n0)));
                    lemma_height_bound(n0.right);
                    if avl_balanced(Some(Box::new(n0))) {
                        assert(avl_balanced(n0.right));
                        assert(link_height(Some(Box::new(n0))) == 1 + link_height(n0.right));
                    }
                }
                (right, Some(node.value.elem))
            } else if node.right.is_none() {
                let left = node.left.take();
                proof {
                    lemma_kept_subtree::<K, V>(n0, left);
                    lemma_height_bound(n0.left);
                    if avl_balanced(Some(Box::new(n0))) {
                        assert(avl_balanced(n0.left));
                        assert(link_height(Some(Box::new(n0))) == 1 + link_height(n0.left));
                    }
                }
                (left, Some(node.value.elem))
            } else {
                match node.right.take() {
                    Some(right) => {
                        proof {
                            assert(link_count(Some(right)) < link_count(Some(Box::new(n0))));
                        }
                        let (rest, mut succ) = remove_min(right);
                        let ghost m = succ.key@;
                        node.right = rest;
                        std::mem::swap(&mut node.key, &mut succ.key);
                        std::mem::swap(&mut node.value.elem, &mut succ.value.elem);
                        proof {
                            lemma_size_is_count(node.left);
                            lemma_size_is_count(node.right);
                        }
                        node.size = Node::size(&node.left) + Node::size(&node.right) + 1;
                        proof {
                            let m0 = avl_map(Some(Box::new(n0)));
                            let m1 = avl_map(Some(node));
                            assert(node.key@ == m);
                            assert(link_map(n0.right).dom().contains(m));
                            assert(key_lt::<K>(n0.key@, m));
                            assert forall|k: K::V| #[trigger] link_map(node.left).dom().contains(k) implies key_lt::<K>(k, node.key@) by {
                                lemma_lt_transitive::<K>(k, n0.key@, m);
                            }
                            assert forall|k: K::V| #[trigger] link_map(node.right).dom().contains(k) implies key_lt::<K>(node.key@, k) by {
                                assert(avl_map(node.right).dom().contains(k));
                                assert(avl_map(n0.right).dom().contains(k) && k != m);
                            }
                            assert(link_wf(Some(node)));
                            assert forall|k: K::V| #[trigger] m1.dom().contains(k) == m0.remove(key@).dom().contains(k) by {
                                lemma_elem_lookup::<K, V>(*node, k);
                                lemma_elem_lookup::<K, V>(n0, k);
                                lemma_lt_trichotomy::<K>(k, n0.key@);
                                lemma_lt_trichotomy::<K>(k, m);
                                if key_lt::<K>(k, n0.key@) && key_lt::<K>(m, k) {
                                    lemma_lt_transitive::<K>(n0.key@, m, k);
                                    lemma_lt_trichotomy::<K>(k, n0.key@);
                                }
                            }
                            assert forall|k: K::V| #[trigger] m1.dom().contains(k) implies m1[k] == m0.remove(key@)[k] by {
                                lemma_elem_lookup::<K, V>(*node, k);
                                lemma_elem_lookup::<K, V>(n0, k);
                                lemma_lt_trichotomy::<K>(k, n0.key@);
                                lemma_lt_trichotomy::<K>(k, m);
                                if key_lt::<K>(k, n0.key@) && key_lt::<K>(m, k) {
                                    lemma_lt_transitive::<K>(n0.key@, m, k);
                                    lemma_lt_trichotomy::<K>(k, n0.key@);
                                }
                            }
                            assert(m1 =~= m0.remove(key@));
                        }
let ghost n1 = *node;
                        let res = restore(node);
                        proof {
                            if avl_balanced(Some(Box::new(n0))) {
                                assert(avl_balanced(n0.left) && avl_balanced(n0.right));
                                assert(link_height(Some(Box::new(n0))) == 1 + if link_height(n0.left) >= link_height(n0.right) {
                                    link_height(n0.left)
                                } else {
                                    link_height(n0.right)
                                });
                                assert(link_height(Some(Box::new(n1))) == 1 + if link_height(n1.left) >= link_height(n1.right) {
                                    link_height(n1.left)
                                } else {
                                    link_height(n1.right)
                                });
                            }
                        }
                        (Some(res), Some(succ.value.elem))
                    },
                    None => (Some(node), None),
                }
            }
        },
    }
}

/// The tree hanging from `link` with the value under `k` replaced by `v`, heights kept.
pub open spec fn set_elem<K: MapKey, V>(link: Option<Box<Node<K, AVLNode<V>>>>, k: K::V, v: V) -> Option<
    Box<Node<K, AVLNode<V>>>,
>
    decreases link,
{
    match link {
        None => None,
        Some(n) => if k == n.key@ {
            Some(Box::new(Node { left: n.left, right: n.right, key: n.key, value: AVLNode { elem: v, height: n.value.height }, size: n.size }))
        } else if key_lt::<K>(k, n.key@) {
            Some(Box::new(Node { left: set_elem(n.left, k, v), right: n.right, key: n.key, value: n.value, size: n.size }))
        } else {
            Some(Box::new(Node { left: n.left, right: set_elem(n.right, k, v), key: n.key, value: n.value, size: n.size }))
        },
    }
}

/// Replacing a stored value keeps the shape, the order and the heights of the tree, and
/// changes that one entry.
proof fn lemma_set_elem<K: MapKey, V>(link: Option<Box<Node<K, AVLNode<V>>>>, k: K::V, v: V)
    requires
        avl_wf(link),
        avl_map(link).dom().contains(k),
    ensures
        avl_wf(set_elem(link, k, v)),
        link_map(set_elem(link, k, v)).dom() == link_map(link).dom(),
        avl_map(set_elem(link, k, v)) == avl_map(link).insert(k, v),
        link_count(set_elem(link, k, v)) == link_count(link),
        link_height(set_elem(link, k, v)) == link_height(link),
        avl_balanced(link) ==> avl_balanced(set_elem(link, k, v)),
    decreases link,
{
    if let Some(n) = link {
        let n1 = *set_elem(link, k, v)->0;
        lemma_elem_lookup::<K, V>(*n, k);
        lemma_lt_trichotomy::<K>(k, n.key@);
        if key_lt::<K>(k, n.key@) {
            lemma_set_elem(n.left, k, v);
        } else if key_lt::<K>(n.key@, k) {
            lemma_set_elem(n.right, k, v);
        }
        assert(link_map(n1.left).dom() == link_map(n.left).dom());
        assert(link_map(n1.right).dom() == link_map(n.right).dom());
        assert(link_wf(Some(Box::new(n1))));
        let m0 = avl_map(link);
        let m1 = avl_map(Some(Box::new(n1)));
        assert(link_map(Some(Box::new(n1))).dom() =~= link_map(link).dom()) by {
            assert forall|j: K::V| #[trigger] link_map(Some(Box::new(n1))).dom().contains(j) == link_map(link).dom().contains(j) by {
                lemma_lookup::<K, AVLNode<V>>(n1, j);
                lemma_lookup::<K, AVLNode<V>>(*n, j);
            }
        }
        assert forall|j: K::V| #[trigger] m1.dom().contains(j) == m0.insert(k, v).dom().contains(j) by {
            lemma_elem_lookup::<K, V>(n1, j);
            lemma_elem_lookup::<K, V>(*n, j);
            lemma_lt_trichotomy::<K>(j, n.key@);
        }
        assert forall|j: K::V| #[trigger] m1.dom().contains(j) implies m1[j] == m0.insert(k, v)[j] by {
            lemma_elem_lookup::<K, V>(n1, j);
            lemma_elem_lookup::<K, V>(*n, j);
            lemma_lt_trichotomy::<K>(j, n.key@);
        }
        assert(m1 =~= m0.insert(k, v));
    }
}

/// A mutable reference to the value stored under `key` in the AVL tree hanging from
/// `link`, if any.
fn elem_mut<'a, K: MapKey, V>(link: &'a mut Option<Box<Node<K, AVLNode<V>>>>, key: &K) -> (r: Option<&'a mut V>)
    requires
        avl_wf(*old(link)),
    ensures
        match r {
            Some(v) => avl_map(*old(link)).dom().contains(key@) && *v == avl_map(*old(link))[key@] && *final(link)
                == set_elem(*old(link), key@, *final(v)),
            None => !avl_map(*old(link)).dom().contains(key@) && *final(link) == *old(link),
        },
    decreases *old(link),
{
    match link {
        None => None,
        Some(node) => {
            proof {
                lemma_elem_lookup::<K, V>(**node, key@);
            }
            match key.compare(&node.key) {
                Cmp::Less => elem_mut(&mut node.left, key),
                Cmp::Greater => elem_mut(&mut node.right, key),
                Cmp::Equal => Some(&mut node.value.elem),
            }
        },
    }
}

/// An ordered map kept in an AVL tree.
pub struct AVLTreeMap<K, V> {
    bst: TreeMap<K, AVLNode<V>>,
}

impl<K: MapKey, V> View for AVLTreeMap<K, V> {
    type V = Map<K::V, V>;

    closed spec fn view(&self) -> Map<K::V, V> {
        avl_map(self.bst.root)
    }
}

impl<K: MapKey, V> AVLTreeMap<K, V> {
    /// Keys in search order, node counts and heights recorded right.
    pub closed spec fn wf(&self) -> bool {
        avl_wf(self.bst.root) && link_count(self.bst.root) <= isize::MAX
    }

    /// The map holds finitely many entries.
    pub proof fn lemma_view_finite(&self)
        requires
            self.wf(),
        ensures
            self@.dom().finite(),
    {
        lemma_link_len(self.bst.root);
        assert(self@.dom() =~= link_map(self.bst.root).dom());
    }

    /// At every node the heights of the two subtrees differ by at most one.
    pub closed spec fn is_balanced(&self) -> bool {
        avl_balanced(self.bst.root)
    }

    /// Creates an empty map.
    pub fn new() -> (m: Self)
        ensures
            m.wf(),
            m.is_balanced(),
            m@ == Map::<K::V, V>::empty(),
    {
        let m = AVLTreeMap { bst: TreeMap { root: None } };
        assert(m@ =~= Map::<K::V, V>::empty());
        m
    }

    /// The value stored under `key`, if any.
    pub fn get(&self, key: &K) -> (r: Option<&V>)
        requires
            self.wf(),
        ensures
            match r {
                Some(v) => self@.dom().contains(key@) && *v == self@[key@],
                None => !self@.dom().contains(key@),
            },
    {
        match Node::get(&self.bst.root, key) {
            Some(a) => Some(&a.elem),
            None => None,
        }
    }

    /// A mutable reference to the value stored under `key`, if any.
    pub fn get_mut(&mut self, key: &K) -> (r: Option<&mut V>)
        requires
            old(self).wf(),
        ensures
            final(self).wf(),
            old(self).is_balanced() ==> final(self).is_balanced(),
            match r {
                Some(v) => old(self)@.dom().contains(key@) && *v == old(self)@[key@] && final(self)@ == old(self)@.insert(
                    key@,
                    *final(v),
                ),
                None => !old(self)@.dom().contains(key@) && final(self)@ == old(self)@,
            },
    {
        proof {
            if self@.dom().contains(key@) {
                lemma_set_elem(self.bst.root, key@, self@[key@]);
            }
        }
        match elem_mut(&mut self.bst.root, key) {
            Some(v) => {
                proof {
                    lemma_set_elem(old(self).bst.root, key@, *final(v));
                }
                Some(v)
            },
            None => None,
        }
    }

    /// Stores `value` under `key`, returning the value it replaced, if any.
    pub fn insert(&mut self, key: K, value: V) -> (r: Option<V>)
        requires
            old(self).wf(),
            old(self)@.len() < isize::MAX,
        ensures
            final(self).wf(),
            old(self).is_balanced() ==> final(self).is_balanced(),
            final(self)@ == old(self)@.insert(key@, value),
            old(self)@.dom().contains(key@) ==> r == Some(old(self)@[key@]),
            !old(self)@.dom().contains(key@) ==> r is None,
    {
        proof {
            lemma_link_len(self.bst.root);
            assert(self@.dom() =~= link_map(self.bst.root).dom());
        }
        let (root, old) = insert_at(self.bst.root.take(), key, value);
        self.bst.root = Some(root);
        old
    }

    /// Removes the entry for `key`, returning its value, if any.
    pub fn remove(&mut self, key: &K) -> (r: Option<V>)
        requires
            old(self).wf(),
        ensures
            final(self).wf(),
            old(self).is_balanced() ==> final(self).is_balanced(),
            final(self)@ == old(self)@.remove(key@),
            old(self)@.dom().contains(key@) ==> r == Some(old(self)@[key@]),
            !old(self)@.dom().contains(key@) ==> r is None,
    {
        match self.bst.root.take() {
            Some(root) => {
                let (rest, old) = remove_at(root, key);
                self.bst.root = rest;
                old
            },
            None => {
                assert(old(self)@.remove(key@) =~= old(self)@);
                None
            },
        }
    }

    /// The number of entries.
    pub fn len(&self) -> (n: usize)
        requires
            self.wf(),
        ensures
            n == self@.len(),
    {
        proof {
            lemma_link_len(self.bst.root);
            lemma_size_is_count(self.bst.root);
            assert(self@.dom() =~= link_map(self.bst.root).dom());
        }
        Node::size(&self.bst.root)
    }

    /// Whether the map has no entry.
    pub fn is_empty(&self) -> (b: bool)
        requires
            self.wf(),
        ensures
            b == (self@.len() == 0),
    {
        self.len() == 0
    }
}

impl<K: MapKey, V> Default for AVLTreeMap<K, V> {
    fn default() -> (m: Self)
        ensures
            m.wf(),
            m.is_balanced(),
            m@ == Map::<K::V, V>::empty(),
    {
        AVLTreeMap::new()
    }
}

impl<K: MapKey, V> OrderedMap<K, V> for AVLTreeMap<K, V> {
    open spec fn contents(&self) -> Map<K::V, V> {
        self@
    }

    open spec fn valid(&self) -> bool {
        self.wf()
    }

    open spec fn can_grow(&self) -> bool {
        self@.len() < isize::MAX
    }

    fn get(&self, key: &K) -> (r: Option<&V>) {
        AVLTreeMap::<K, V>::get(self, key)
    }

    fn get_mut(&mut self, key: &K) -> (r: Option<&mut V>) {
        AVLTreeMap::<K, V>::get_mut(self, key)
    }

    fn insert(&mut self, key: K, value: V) -> (r: Option<V>) {
        AVLTreeMap::<K, V>::insert(self, key, value)
    }

    fn get_mut_or_insert(&mut self, key: K, default: V) -> (r: &mut V) {
        if AVLTreeMap::<K, V>::get(self, &key).is_none() {
            let k = key.duplicate();
            AVLTreeMap::<K, V>::insert(self, k, default);
        }
        AVLTreeMap::<K, V>::get_mut(self, &key).unwrap()
    }

    fn remove(&mut self, key: &K) -> (r: Option<V>) {
        AVLTreeMap::<K, V>::remove(self, key)
    }

    fn len(&self) -> (n: usize) {
        AVLTreeMap::<K, V>::len(self)
    }
}

} // verus!
