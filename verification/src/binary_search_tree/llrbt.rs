//! An ordered map kept in a left-leaning red-black tree: a binary search tree whose nodes
//! carry a color, rebalanced by rotations and color flips on the way back up.

use vstd::prelude::*;
use super::{MapKey, OrderedMap, Cmp, key_lt, lemma_lt_transitive, lemma_lt_trichotomy};
use super::bst2::{Node, TreeMap, Iter, pairs, lists_in_order, set_value, link_map, link_wf, link_count, lemma_lookup, lemma_size_is_count, lemma_link_len};

verus! {

/// The color of a red link.
pub const RED: bool = true;

/// The color of a black link.
pub const BLACK: bool = false;

/// A value together with the color of the link to its node.
pub struct ColoredValue<V> {
    pub elem: V,
    pub color: bool,
}

/// A node of a red-black tree.
pub type RBLink<K, V> = Option<Box<Node<K, ColoredValue<V>>>>;

/// The entries of a red-black tree, without their colors.
pub open spec fn elem_map<K: View, V>(link: Option<Box<Node<K, ColoredValue<V>>>>) -> Map<K::V, V> {
    link_map(link).map_values(|c: ColoredValue<V>| c.elem)
}

/// Whether the link to the tree hanging from `link` is red.
fn is_red<K, V>(link: &Option<Box<Node<K, ColoredValue<V>>>>) -> (b: bool)
    ensures
        b == (link matches Some(n) && n.value.color == RED),
{
    match link {
        Some(n) => n.value.color == RED,
        None => false,
    }
}

/// Two trees with the same keys, the same counts and the same values but for colors hold
/// the same entries.
proof fn lemma_same_elems<K: MapKey, V>(a: Option<Box<Node<K, ColoredValue<V>>>>, b: Option<Box<Node<K, ColoredValue<V>>>>)
    requires
        link_map(a).dom() == link_map(b).dom(),
        forall|k: K::V| #[trigger] link_map(a).dom().contains(k) ==> link_map(a)[k].elem == link_map(b)[k].elem,
    ensures
        elem_map(a) == elem_map(b),
{
    assert(elem_map(a) =~= elem_map(b));
}

/// The node count recorded at the root of `link` (zero when empty).
pub open spec fn link_size<K, V>(link: Option<Box<Node<K, V>>>) -> usize {
    match link {
        None => 0,
        Some(n) => n.size,
    }
}

/// The tree hanging from `link` with the color of its root flipped.
pub open spec fn flip_link<K, V>(link: Option<Box<Node<K, ColoredValue<V>>>>) -> Option<Box<Node<K, ColoredValue<V>>>> {
    match link {
        None => None,
        Some(c) => Some(
            Box::new(
                Node {
                    left: c.left,
                    right: c.right,
                    key: c.key,
                    value: ColoredValue { elem: c.value.elem, color: !c.value.color },
                    size: c.size,
                },
            ),
        ),
    }
}

/// `n` with its own color and the colors of its children flipped.
pub open spec fn flipped<K, V>(n: Node<K, ColoredValue<V>>) -> Node<K, ColoredValue<V>> {
    Node {
        left: flip_link(n.left),
        right: flip_link(n.right),
        key: n.key,
        value: ColoredValue { elem: n.value.elem, color: !n.value.color },
        size: n.size,
    }
}

/// `n` rotated to the left: its right child rises, takes the color and the count of `n`,
/// and `n`, turned red, becomes its left child over the two lower subtrees on the left.
pub open spec fn zigged<K, V>(n: Node<K, ColoredValue<V>>) -> Node<K, ColoredValue<V>> {
    let x = n.right->0;
    Node {
        left: Some(
            Box::new(
                Node {
                    left: n.left,
                    right: x.left,
                    key: n.key,
                    value: ColoredValue { elem: n.value.elem, color: RED },
                    size: (1 + link_size(n.left) + link_size(x.left)) as usize,
                },
            ),
        ),
        right: x.right,
        key: x.key,
        value: ColoredValue { elem: x.value.elem, color: n.value.color },
        size: n.size,
    }
}

/// `n` rotated to the right: its left child rises, takes the color and the count of `n`,
/// and `n`, turned red, becomes its right child over the two lower subtrees on the right.
pub open spec fn zagged<K, V>(n: Node<K, ColoredValue<V>>) -> Node<K, ColoredValue<V>> {
    let x = n.left->0;
    Node {
        left: x.left,
        right: Some(
            Box::new(
                Node {
                    left: x.right,
                    right: n.right,
                    key: n.key,
                    value: ColoredValue { elem: n.value.elem, color: RED },
                    size: (1 + link_size(n.right) + link_size(x.right)) as usize,
                },
            ),
        ),
        key: x.key,
        value: ColoredValue { elem: x.value.elem, color: n.value.color },
        size: n.size,
    }
}

/// Rotates the tree rooted at `node` to the left: its right child rises and takes the
/// root's color, the old root turns red.
fn zig<K: MapKey, V>(node: Box<Node<K, ColoredValue<V>>>) -> (r: Box<Node<K, ColoredValue<V>>>)
    requires
        link_wf(Some(node)),
        node.right is Some,
    ensures
        link_wf(Some(r)),
        elem_map(Some(r)) == elem_map(Some(node)),
        link_count(Some(r)) == link_count(Some(node)),
        r.value.color == node.value.color,
        key_lt::<K>(node.key@, r.key@),
        r.left is Some,
        r.left->0.left == node.left,
        r.left->0.right == node.right->0.left,
        r.left->0.value.color == RED,
        r.right == node.right->0.right,
        *r == zigged(*node),
{
    let ghost n0 = *node;
    let mut node = node;
    let mut x = match node.right.take() {
        Some(x) => x,
        None => {
            proof {
                assert(false);
            }
            return node;
        },
    };
    let ghost x0 = *x;
    proof {
        assert(n0.right == Some(x));
        assert(link_wf(n0.right));
        assert(link_wf(x0.left) && link_wf(x0.right));
        assert(x0.size == link_count(x0.left) + link_count(x0.right) + 1);
    }
    node.right = x.left.take();
    x.value.color = node.value.color;
    node.value.color = RED;
    proof {
        lemma_size_is_count(node.left);
        lemma_size_is_count(node.right);
        lemma_size_is_count(Some(Box::new(n0)));
    }
    x.size = node.size;
    node.size = 1 + Node::size(&node.left) + Node::size(&node.right);
    proof {
        let a = n0.key@;
        let b = x0.key@;
        assert(link_map(n0.right).dom().contains(b)) by {
            lemma_lookup::<K, ColoredValue<V>>(x0, b);
        }
        assert(key_lt::<K>(a, b));
        assert forall|k: K::V| #[trigger] link_map(node.right).dom().contains(k) implies key_lt::<K>(node.key@, k) by {
            lemma_lookup::<K, ColoredValue<V>>(x0, k);
            assert(link_map(n0.right).dom().contains(k));
        }
        assert forall|k: K::V| #[trigger] link_map(node.left).dom().contains(k) implies key_lt::<K>(k, node.key@) by {
            assert(link_map(n0.left).dom().contains(k));
        }
        assert(link_wf(Some(node)));
        assert forall|k: K::V| #[trigger] link_map(Some(node)).dom().contains(k) implies key_lt::<K>(k, b) by {
            lemma_lookup::<K, ColoredValue<V>>(*node, k);
            lemma_lt_trichotomy::<K>(k, a);
            if key_lt::<K>(k, a) {
                lemma_lt_transitive::<K>(k, a, b);
            } else if key_lt::<K>(a, k) {
                lemma_lookup::<K, ColoredValue<V>>(x0, k);
                assert(link_map(x0.left).dom().contains(k));
            }
        }
        assert forall|k: K::V| #[trigger] link_map(x.right).dom().contains(k) implies key_lt::<K>(b, k) by {
            lemma_lookup::<K, ColoredValue<V>>(x0, k);
        }
    }
    x.left = Some(node);
    proof {
        let a = n0.key@;
        let b = x0.key@;
        let old_link = Some(Box::new(n0));
        let new_link = Some(x);
        assert(link_wf(new_link));
        assert forall|k: K::V| #[trigger] link_map(new_link).dom().contains(k) == link_map(old_link).dom().contains(k) by {
            lemma_lookup::<K, ColoredValue<V>>(*x, k);
            lemma_lookup::<K, ColoredValue<V>>(n0, k);
            lemma_lookup::<K, ColoredValue<V>>(x0, k);
            let l = x.left.unwrap();
            lemma_lookup::<K, ColoredValue<V>>(*l, k);
            lemma_lt_trichotomy::<K>(k, a);
            lemma_lt_trichotomy::<K>(k, b);
        }
        assert forall|k: K::V| #[trigger] link_map(new_link).dom().contains(k) implies link_map(new_link)[k].elem == link_map(
            old_link,
        )[k].elem by {
            lemma_lookup::<K, ColoredValue<V>>(*x, k);
            lemma_lookup::<K, ColoredValue<V>>(n0, k);
            lemma_lookup::<K, ColoredValue<V>>(x0, k);
            let l = x.left.unwrap();
            lemma_lookup::<K, ColoredValue<V>>(*l, k);
            lemma_lt_trichotomy::<K>(k, a);
            lemma_lt_trichotomy::<K>(k, b);
        }
        assert(link_map(new_link).dom() =~= link_map(old_link).dom());
        lemma_same_elems(new_link, old_link);
    }
    x
}

/// Rotates the tree rooted at `node` to the right: its left child rises and takes the
/// root's color, the old root turns red.
fn zag<K: MapKey, V>(node: Box<Node<K, ColoredValue<V>>>) -> (r: Box<Node<K, ColoredValue<V>>>)
    requires
        link_wf(Some(node)),
        node.left is Some,
    ensures
        link_wf(Some(r)),
        elem_map(Some(r)) == elem_map(Some(node)),
        link_count(Some(r)) == link_count(Some(node)),
        r.value.color == node.value.color,
        key_lt::<K>(r.key@, node.key@),
        r.right is Some,
        r.right->0.right == node.right,
        r.right->0.left == node.left->0.right,
        r.right->0.value.color == RED,
        r.left == node.left->0.left,
        *r == zagged(*node),
{
    let ghost n0 = *node;
    let mut node = node;
    let mut x = match node.left.take() {
        Some(x) => x,
        None => {
            proof {
                assert(false);
            }
            return node;
        },
    };
    let ghost x0 = *x;
    proof {
        assert(n0.left == Some(x));
        assert(link_wf(n0.left));
        assert(link_wf(x0.right) && link_wf(x0.left));
        assert(x0.size == link_count(x0.right) + link_count(x0.left) + 1);
    }
    node.left = x.right.take();
    x.value.color = node.value.color;
    node.value.color = RED;
    proof {
        lemma_size_is_count(node.right);
        lemma_size_is_count(node.left);
        lemma_size_is_count(Some(Box::new(n0)));
    }
    x.size = node.size;
    node.size = 1 + Node::size(&node.right) + Node::size(&node.left);
    proof {
        let a = n0.key@;
        let b = x0.key@;
        assert(link_map(n0.left).dom().contains(b)) by {
            lemma_lookup::<K, ColoredValue<V>>(x0, b);
        }
        assert(key_lt::<K>(b, a));
        assert forall|k: K::V| #[trigger] link_map(node.left).dom().contains(k) implies key_lt::<K>(k, node.key@) by {
            lemma_lookup::<K, ColoredValue<V>>(x0, k);
            assert(link_map(n0.left).dom().contains(k));
        }
        assert forall|k: K::V| #[trigger] link_map(node.right).dom().contains(k) implies key_lt::<K>(node.key@, k) by {
            assert(link_map(n0.right).dom().contains(k));
        }
        assert(link_wf(Some(node)));
        assert forall|k: K::V| #[trigger] link_map(Some(node)).dom().contains(k) implies key_lt::<K>(b, k) by {
            lemma_lookup::<K, ColoredValue<V>>(*node, k);
            lemma_lt_trichotomy::<K>(k, a);
            if key_lt::<K>(a, k) {
                lemma_lt_transitive::<K>(b, a, k);
            } else if key_lt::<K>(k, a) {
                lemma_lookup::<K, ColoredValue<V>>(x0, k);
                assert(link_map(x0.right).dom().contains(k));
            }
        }
        assert forall|k: K::V| #[trigger] link_map(x.left).dom().contains(k) implies key_lt::<K>(k, b) by {
            lemma_lookup::<K, ColoredValue<V>>(x0, k);
        }
    }
    x.right = Some(node);
    proof {
        let a = n0.key@;
        let b = x0.key@;
        let old_link = Some(Box::new(n0));
        let new_link = Some(x);
        assert(link_wf(new_link));
        assert forall|k: K::V| #[trigger] link_map(new_link).dom().contains(k) == link_map(old_link).dom().contains(k) by {
            lemma_lookup::<K, ColoredValue<V>>(*x, k);
            lemma_lookup::<K, ColoredValue<V>>(n0, k);
            lemma_lookup::<K, ColoredValue<V>>(x0, k);
            let l = x.right.unwrap();
            lemma_lookup::<K, ColoredValue<V>>(*l, k);
            lemma_lt_trichotomy::<K>(k, a);
            lemma_lt_trichotomy::<K>(k, b);
        }
        assert forall|k: K::V| #[trigger] link_map(new_link).dom().contains(k) implies link_map(new_link)[k].elem == link_map(
            old_link,
        )[k].elem by {
            lemma_lookup::<K, ColoredValue<V>>(*x, k);
            lemma_lookup::<K, ColoredValue<V>>(n0, k);
            lemma_lookup::<K, ColoredValue<V>>(x0, k);
            let l = x.right.unwrap();
            lemma_lookup::<K, ColoredValue<V>>(*l, k);
            lemma_lt_trichotomy::<K>(k, a);
            lemma_lt_trichotomy::<K>(k, b);
        }
        assert(link_map(new_link).dom() =~= link_map(old_link).dom());
        lemma_same_elems(new_link, old_link);
    }
    x
}


/// Whether the link to the tree hanging from `link` is red.
pub open spec fn red_link<K, V>(link: Option<Box<Node<K, ColoredValue<V>>>>) -> bool {
    link matches Some(n) && n.value.color == RED
}

/// The number of black links met on the way down the left spine, from the link to the
/// root of `link` to an empty link.
pub open spec fn black_depth<K, V>(link: Option<Box<Node<K, ColoredValue<V>>>>) -> int
    decreases link,
{
    match link {
        None => 0,
        Some(n) => (if n.value.color == RED {
            0int
        } else {
            1int
        }) + black_depth(n.left),
    }
}

/// At the top of `n`: the two subtrees are as deep in black links, and the link to the
/// right child is not red.
pub open spec fn llrb_top<K, V>(n: Node<K, ColoredValue<V>>) -> bool {
    black_depth(n.left) == black_depth(n.right) && !red_link(n.right)
}

/// A left-leaning red-black tree: at every node the two subtrees are as deep in black
/// links, no link to a right child is red, and no red link follows another red link.
pub open spec fn llrb_shape<K, V>(link: Option<Box<Node<K, ColoredValue<V>>>>) -> bool
    decreases link,
{
    match link {
        None => true,
        Some(n) => llrb_top(*n) && !(n.value.color == RED && red_link(n.left)) && llrb_shape(n.left) && llrb_shape(n.right),
    }
}

/// Replacing a stored value by one of the same color keeps the shape of a left-leaning
/// red-black tree and its depth in black links.
proof fn lemma_set_value_shape<K: MapKey, V>(link: Option<Box<Node<K, ColoredValue<V>>>>, k: K::V, v: ColoredValue<V>)
    requires
        link_wf(link),
        link_map(link).dom().contains(k),
        v.color == link_map(link)[k].color,
    ensures
        llrb_shape(link) ==> llrb_shape(set_value(link, k, v)),
        black_depth(set_value(link, k, v)) == black_depth(link),
        red_link(set_value(link, k, v)) == red_link(link),
    decreases link,
{
    if let Some(n) = link {
        lemma_lookup::<K, ColoredValue<V>>(*n, k);
        lemma_lt_trichotomy::<K>(k, n.key@);
        if k != n.key@ {
            if link_map(n.left).dom().contains(k) {
                lemma_set_value_shape(n.left, k, v);
            } else {
                lemma_set_value_shape(n.right, k, v);
            }
        }
    }
}

/// Whether two trees hold the same keys with the same values, whatever their colors.
pub open spec fn same_elems<K: View, V>(a: Option<Box<Node<K, ColoredValue<V>>>>, b: Option<Box<Node<K, ColoredValue<V>>>>) -> bool {
    &&& link_map(a).dom() == link_map(b).dom()
    &&& forall|k: K::V| #[trigger] link_map(a).dom().contains(k) ==> link_map(a)[k].elem == link_map(b)[k].elem
}

/// Nodes with the same key and value whose subtrees hold the same entries hold the same
/// entries.
proof fn lemma_same_elems_node<K: MapKey, V>(a: Node<K, ColoredValue<V>>, b: Node<K, ColoredValue<V>>)
    requires
        same_elems(a.left, b.left),
        same_elems(a.right, b.right),
        a.key@ == b.key@,
        a.value.elem == b.value.elem,
    ensures
        same_elems(Some(Box::new(a)), Some(Box::new(b))),
{
    let ma = link_map(Some(Box::new(a)));
    let mb = link_map(Some(Box::new(b)));
    assert(ma.dom() =~= mb.dom());
}

/// A tree with the same counts and entries as a well-formed one, whose subtrees are
/// well-formed, is well-formed.
proof fn lemma_wf_same_elems<K: MapKey, V>(a: Node<K, ColoredValue<V>>, b: Node<K, ColoredValue<V>>)
    requires
        link_wf(Some(Box::new(a))),
        link_wf(b.left),
        link_wf(b.right),
        same_elems(a.left, b.left),
        same_elems(a.right, b.right),
        a.key@ == b.key@,
        b.size == link_count(b.left) + link_count(b.right) + 1,
    ensures
        link_wf(Some(Box::new(b))),
{
}

/// Flips the color of the root of `node` and of each of its children.
fn flip<K: MapKey, V>(node: Box<Node<K, ColoredValue<V>>>) -> (r: Box<Node<K, ColoredValue<V>>>)
    requires
        link_wf(Some(node)),
    ensures
        link_wf(Some(r)),
        elem_map(Some(r)) == elem_map(Some(node)),
        same_elems(Some(r), Some(node)),
        link_count(Some(r)) == link_count(Some(node)),
        r.key == node.key,
        r.value.color == !node.value.color,
        r.left is Some == node.left is Some,
        r.right is Some == node.right is Some,
        r.left matches Some(l) ==> l.value.color == !node.left.unwrap().value.color,
        r.right matches Some(l) ==> l.value.color == !node.right.unwrap().value.color,
        r.left matches Some(l) ==> l.left == node.left->0.left && l.right == node.left->0.right,
        r.right matches Some(l) ==> l.left == node.right->0.left && l.right == node.right->0.right,
        *r == flipped(*node),
{
    let ghost n0 = *node;
    let mut node = node;
    node.value.color = !node.value.color;
    match node.left.take() {
        Some(mut l) => {
            let ghost l0 = *l;
            l.value.color = !l.value.color;
            proof {
                assert(link_wf(Some(Box::new(l0))));
                lemma_same_elems_node(l0, *l);
                lemma_same_elems_node(*l, l0);
                lemma_wf_same_elems(l0, *l);
            }
            node.left = Some(l);
        },
        None => {},
    }
    match node.right.take() {
        Some(mut l) => {
            let ghost l0 = *l;
            l.value.color = !l.value.color;
            proof {
                assert(link_wf(Some(Box::new(l0))));
                lemma_same_elems_node(l0, *l);
                lemma_same_elems_node(*l, l0);
                lemma_wf_same_elems(l0, *l);
            }
            node.right = Some(l);
        },
        None => {},
    }
    proof {
        assert(same_elems(n0.left, node.left));
        assert(same_elems(n0.right, node.right));
        assert(link_count(node.left) == link_count(n0.left));
        assert(link_count(node.right) == link_count(n0.right));
        lemma_wf_same_elems(n0, *node);
        lemma_same_elems_node(*node, n0);
        lemma_same_elems(Some(node), Some(Box::new(n0)));
    }
    node
}


/// Equal entry maps mean the same entries.
proof fn lemma_elem_map_same<K: MapKey, V>(a: Option<Box<Node<K, ColoredValue<V>>>>, b: Option<Box<Node<K, ColoredValue<V>>>>)
    requires
        elem_map(a) == elem_map(b),
    ensures
        same_elems(a, b),
{
    assert(link_map(a).dom() =~= elem_map(a).dom());
    assert(link_map(b).dom() =~= elem_map(b).dom());
    assert forall|k: K::V| #[trigger] link_map(a).dom().contains(k) implies link_map(a)[k].elem == link_map(b)[k].elem by {
        assert(elem_map(a).dom().contains(k));
        assert(elem_map(a)[k] == link_map(a)[k].elem);
        assert(elem_map(b).dom().contains(k));
        assert(elem_map(b)[k] == link_map(b)[k].elem);
        assert(elem_map(a)[k] == elem_map(b)[k]);
    }
}

/// Whether the left child of `node` is red and has a red left child.
fn left_left_red<K, V>(node: &Node<K, ColoredValue<V>>) -> (b: bool)
    ensures
        b == (match node.left {
            Some(l) => l.value.color == RED && match l.left {
                Some(ll) => ll.value.color == RED,
                None => false,
            },
            None => false,
        }),
{
    match &node.left {
        Some(l) => l.value.color == RED && is_red(&l.left),
        None => false,
    }
}

/// Restores the shape of a left-leaning red-black tree at `node` after a change below it:
/// a right-leaning red link is rotated left, two red links in a row are rotated right, and
/// two red children are flipped; then the node count is recomputed.
fn fix_up<K: MapKey, V>(node: Box<Node<K, ColoredValue<V>>>) -> (r: Box<Node<K, ColoredValue<V>>>)
    requires
        link_wf(Some(node)),
    ensures
        link_wf(Some(r)),
        elem_map(Some(r)) == elem_map(Some(node)),
        link_count(Some(r)) == link_count(Some(node)),
        grown_left(*node) || grown_right(*node) || llrb_shape(Some(node)) ==> llrb_top(*r) && llrb_shape(r.left)
            && llrb_shape(r.right) && black_depth(Some(r)) == black_depth(Some(node)) && (r.value.color == RED
            && red_link(r.left) ==> node.value.color == RED),
        shrunk(*node) ==> top_ok(Some(r)),
        shrunk_calm(*node) ==> llrb_shape(Some(r)) && black_depth(Some(r)) == black_depth(Some(node)) && (node.value.color
            == BLACK && !(red_link(node.left) && red_link(node.right)) ==> r.value.color == BLACK),
{
    let ghost n0 = *node;
    let mut node = node;
    if is_red(&node.right) && !is_red(&node.left) {
        node = zig(node);
    }
    let ghost n1 = *node;
    if is_red(&node.left) && left_left_red(&node) {
        node = zag(node);
    }
    let ghost n2 = *node;
    if is_red(&node.left) && is_red(&node.right) {
        node = flip(node);
    }
    let ghost n3 = *node;
    proof {
        lemma_size_is_count(node.left);
        lemma_size_is_count(node.right);
        lemma_size_is_count(Some(node));
    }
    node.size = Node::size(&node.left) + Node::size(&node.right) + 1;
    proof {
        assert(node.left == n3.left && node.right == n3.right && node.value == n3.value);
        if grown_left(n0) || grown_right(n0) || llrb_shape(Some(Box::new(n0))) {
            lemma_fix_up_shape(n0, n1, n2, n3);
        }
        if shrunk(n0) {
            lemma_fix_up_shrunk(n0, n1, n2, n3);
        }
    }
    node
}

/// What a removal below `n` leaves there: both subtrees are left-leaning red-black trees
/// as deep in black links.
pub open spec fn shrunk<K, V>(n: Node<K, ColoredValue<V>>) -> bool {
    llrb_shape(n.left) && llrb_shape(n.right) && black_depth(n.left) == black_depth(n.right)
}

/// Where a removal below `n` leaves what `fix_up` turns into a left-leaning red-black tree
/// as deep in black links: no red child under a red `n`.
pub open spec fn shrunk_calm<K, V>(n: Node<K, ColoredValue<V>>) -> bool {
    &&& shrunk(n)
    &&& (n.value.color == RED ==> !red_link(n.left) && !red_link(n.right))
}

/// A left-leaning red-black tree but that a red root may have a red left child.
pub open spec fn top_ok<K, V>(link: Option<Box<Node<K, ColoredValue<V>>>>) -> bool {
    match link {
        None => true,
        Some(n) => llrb_top(*n) && llrb_shape(n.left) && llrb_shape(n.right),
    }
}

/// The three steps of `fix_up` on a node left by a removal below it.
proof fn lemma_fix_up_shrunk<K, V>(
    n0: Node<K, ColoredValue<V>>,
    n1: Node<K, ColoredValue<V>>,
    n2: Node<K, ColoredValue<V>>,
    n3: Node<K, ColoredValue<V>>,
)
    requires
        shrunk(n0),
        red_link(n0.right) && !red_link(n0.left) ==> n1.value.color == n0.value.color && n1.left is Some && n1.left->0.left
            == n0.left && n1.left->0.right == n0.right->0.left && n1.left->0.value.color == RED && n1.right
            == n0.right->0.right,
        !(red_link(n0.right) && !red_link(n0.left)) ==> n1 == n0,
        red_link(n1.left) && red_link(n1.left->0.left) ==> n2.value.color == n1.value.color && n2.right is Some
            && n2.right->0.right == n1.right && n2.right->0.left == n1.left->0.right && n2.right->0.value.color == RED
            && n2.left == n1.left->0.left,
        !(red_link(n1.left) && red_link(n1.left->0.left)) ==> n2 == n1,
        red_link(n2.left) && red_link(n2.right) ==> n3.value.color == !n2.value.color && n3.left is Some && n3.right is Some
            && n3.left->0.value.color == !n2.left->0.value.color && n3.right->0.value.color == !n2.right->0.value.color
            && n3.left->0.left == n2.left->0.left && n3.left->0.right == n2.left->0.right && n3.right->0.left
            == n2.right->0.left && n3.right->0.right == n2.right->0.right,
        !(red_link(n2.left) && red_link(n2.right)) ==> n3 == n2,
    ensures
        top_ok(Some(Box::new(n3))),
        shrunk_calm(n0) ==> llrb_shape(Some(Box::new(n3))) && black_depth(Some(Box::new(n3))) == black_depth(
            Some(Box::new(n0)),
        ) && (n0.value.color == BLACK && !(red_link(n0.left) && red_link(n0.right)) ==> n3.value.color == BLACK),
{
    if n0.left is Some {
        let l = n0.left->0;
        assert(black_depth(n0.left) == (if l.value.color == RED { 0int } else { 1int }) + black_depth(l.left));
        assert(llrb_top(*l) && llrb_shape(l.left) && llrb_shape(l.right));
    }
    if n0.right is Some {
        let r = n0.right->0;
        assert(black_depth(n0.right) == (if r.value.color == RED { 0int } else { 1int }) + black_depth(r.left));
        assert(llrb_top(*r) && llrb_shape(r.left) && llrb_shape(r.right));
    }
    if red_link(n0.right) && !red_link(n0.left) {
        let m = n1.left->0;
        assert(black_depth(n1.left) == black_depth(n0.left));
        assert(llrb_top(*m));
        assert(llrb_shape(n1.left));
        assert(n3 == n1);
    } else if red_link(n0.left) && red_link(n0.right) {
        let l = n0.left->0;
        let rr = n0.right->0;
        assert(n1 == n0 && n2 == n1);
        assert(black_depth(n3.left) == 1 + black_depth(l.left));
        assert(black_depth(n3.right) == 1 + black_depth(rr.left));
        assert(llrb_shape(n3.left));
        assert(llrb_shape(n3.right));
    } else {
        assert(n3 == n0);
    }
    assert(black_depth(Some(Box::new(n3))) == (if n3.value.color == RED { 0int } else { 1int }) + black_depth(n3.left));
    assert(black_depth(Some(Box::new(n0))) == (if n0.value.color == RED { 0int } else { 1int }) + black_depth(n0.left));
}

/// What an insertion below the left child of `n` leaves there: a left subtree that is a
/// left-leaning red-black tree but for a red link that may follow the red link to its
/// root, and then only under a black `n`; as deep in black links as the right subtree,
/// itself a left-leaning red-black tree under a black link.
pub open spec fn grown_left<K, V>(n: Node<K, ColoredValue<V>>) -> bool {
    &&& n.left is Some
    &&& llrb_top(*n.left->0)
    &&& llrb_shape(n.left->0.left)
    &&& llrb_shape(n.left->0.right)
    &&& black_depth(n.left) == black_depth(n.right)
    &&& llrb_shape(n.right)
    &&& !red_link(n.right)
    &&& (red_link(n.left) && red_link(n.left->0.left) ==> n.value.color == BLACK)
}

/// What an insertion below the right child of `n` leaves there: a right subtree that is
/// a left-leaning red-black tree but that the link to it may be red, as deep in black
/// links as the left subtree, itself a left-leaning red-black tree that hangs by a red
/// link only under a black `n`.
pub open spec fn grown_right<K, V>(n: Node<K, ColoredValue<V>>) -> bool {
    &&& n.right is Some
    &&& llrb_top(*n.right->0)
    &&& llrb_shape(n.right->0.left)
    &&& llrb_shape(n.right->0.right)
    &&& !(red_link(n.right) && red_link(n.right->0.left))
    &&& black_depth(n.right) == black_depth(n.left)
    &&& llrb_shape(n.left)
    &&& (red_link(n.left) ==> n.value.color == BLACK)
}

/// The three steps of `fix_up` turn a node left by an insertion below it into a
/// left-leaning red-black tree as deep in black links, but for a red link that may follow
/// the red link to its root when that link was red before.
proof fn lemma_fix_up_shape<K, V>(
    n0: Node<K, ColoredValue<V>>,
    n1: Node<K, ColoredValue<V>>,
    n2: Node<K, ColoredValue<V>>,
    n3: Node<K, ColoredValue<V>>,
)
    requires
        grown_left(n0) || grown_right(n0) || llrb_shape(Some(Box::new(n0))),
        red_link(n0.right) && !red_link(n0.left) ==> n1.value.color == n0.value.color && n1.left is Some && n1.left->0.left
            == n0.left && n1.left->0.right == n0.right->0.left && n1.left->0.value.color == RED && n1.right
            == n0.right->0.right,
        !(red_link(n0.right) && !red_link(n0.left)) ==> n1 == n0,
        red_link(n1.left) && red_link(n1.left->0.left) ==> n2.value.color == n1.value.color && n2.right is Some
            && n2.right->0.right == n1.right && n2.right->0.left == n1.left->0.right && n2.right->0.value.color == RED
            && n2.left == n1.left->0.left,
        !(red_link(n1.left) && red_link(n1.left->0.left)) ==> n2 == n1,
        red_link(n2.left) && red_link(n2.right) ==> n3.value.color == !n2.value.color && n3.left is Some && n3.right is Some
            && n3.left->0.value.color == !n2.left->0.value.color && n3.right->0.value.color == !n2.right->0.value.color
            && n3.left->0.left == n2.left->0.left && n3.left->0.right == n2.left->0.right && n3.right->0.left
            == n2.right->0.left && n3.right->0.right == n2.right->0.right,
        !(red_link(n2.left) && red_link(n2.right)) ==> n3 == n2,
    ensures
        llrb_top(n3),
        llrb_shape(n3.left),
        llrb_shape(n3.right),
        black_depth(Some(Box::new(n3))) == black_depth(Some(Box::new(n0))),
        n3.value.color == RED && red_link(n3.left) ==> n0.value.color == RED,
{
    if n0.left is Some {
        let l = n0.left->0;
        assert(black_depth(n0.left) == (if l.value.color == RED { 0int } else { 1int }) + black_depth(l.left));
    }
    if n0.right is Some {
        let l = n0.right->0;
        assert(black_depth(n0.right) == (if l.value.color == RED { 0int } else { 1int }) + black_depth(l.left));
    }
    if llrb_shape(Some(Box::new(n0))) {
        assert(llrb_top(n0) && llrb_shape(n0.left) && llrb_shape(n0.right));
        if n0.left is Some {
            assert(llrb_shape(n0.left->0.left));
        }
    }
    if grown_left(n0) {
        let l = n0.left->0;
        if red_link(n0.left) && red_link(l.left) {
            let ll = l.left->0;
            assert(black_depth(l.left) == black_depth(ll.left));
            assert(llrb_top(*ll) && llrb_shape(ll.left) && llrb_shape(ll.right));
            let a = n3.left->0;
            let b = n3.right->0;
            assert(a.left == ll.left && a.right == ll.right);
            assert(b.left == l.right && b.right == n0.right);
            assert(black_depth(n3.left) == 1 + black_depth(ll.left));
            assert(black_depth(n3.right) == 1 + black_depth(l.right));
            assert(llrb_shape(n3.left));
            assert(llrb_shape(n3.right));
        } else {
            assert(llrb_shape(n0.left));
        }
    } else if grown_right(n0) {
        let rr = n0.right->0;
        if red_link(n0.right) && !red_link(n0.left) {
            let m = n1.left->0;
            assert(black_depth(n1.left) == black_depth(n0.left));
            assert(llrb_top(*m));
            assert(llrb_shape(n1.left));
            assert(n3 == n1);
        } else if red_link(n0.right) {
            let l = n0.left->0;
            assert(llrb_shape(n0.left));
            assert(llrb_top(*l) && llrb_shape(l.left) && llrb_shape(l.right));
            assert(!red_link(l.left));
            let a = n3.left->0;
            let b = n3.right->0;
            assert(black_depth(n3.left) == 1 + black_depth(l.left));
            assert(black_depth(n3.right) == 1 + black_depth(rr.left));
            assert(llrb_shape(n3.left));
            assert(llrb_shape(n3.right));
        } else {
            assert(llrb_shape(n0.right));
            if n0.left is Some {
                assert(llrb_shape(n0.left->0.left));
            }
        }
    }
    assert(black_depth(Some(Box::new(n3))) == (if n3.value.color == RED { 0int } else { 1int }) + black_depth(n3.left));
    assert(black_depth(Some(Box::new(n0))) == (if n0.value.color == RED { 0int } else { 1int }) + black_depth(n0.left));
}

/// `n` with its colors flipped; then, when its right child has a red left child, that
/// child rotated up the right subtree and to the top, and the colors flipped again.
pub open spec fn moved_red_left<K, V>(n: Node<K, ColoredValue<V>>) -> Node<K, ColoredValue<V>> {
    let f = flipped(n);
    if f.right is Some && red_link(f.right->0.left) {
        flipped(
            zigged(Node { left: f.left, right: Some(Box::new(zagged(*f.right->0))), key: f.key, value: f.value, size: f.size }),
        )
    } else {
        f
    }
}

/// `n` with its colors flipped; then, when its left child has a red left child, that child
/// rotated to the top and the colors flipped again.
pub open spec fn moved_red_right<K, V>(n: Node<K, ColoredValue<V>>) -> Node<K, ColoredValue<V>> {
    let f = flipped(n);
    if red_link(f.left) && red_link(f.left->0.left) {
        flipped(zagged(f))
    } else {
        f
    }
}

/// Whether a removal may start at `h`: a left-leaning red-black tree that is red or has a
/// red left child, so that it can give up a node without growing shorter.
pub open spec fn removable<K, V>(h: Node<K, ColoredValue<V>>) -> bool {
    llrb_shape(Some(Box::new(h))) && (h.value.color == RED || red_link(h.left))
}

/// Moving red to the left of a left-leaning red-black tree whose left child and left
/// grandchild are black leaves a left child that a removal may start at.
proof fn lemma_moved_left_child<K, V>(h: Node<K, ColoredValue<V>>)
    requires
        llrb_shape(Some(Box::new(h))),
        h.left is Some,
        !red_link(h.left),
        !red_link(h.left->0.left),
    ensures
        moved_red_left(h).left is Some,
        removable(*moved_red_left(h).left->0),
{
    let a = h.left->0;
    assert(llrb_top(h) && llrb_shape(h.left) && llrb_shape(h.right));
    assert(llrb_top(*a) && llrb_shape(a.left) && llrb_shape(a.right));
    let f = flipped(h);
    let ap = f.left->0;
    assert(ap.left == a.left && ap.right == a.right && ap.value.color == RED);
    assert(llrb_shape(f.left));
    if f.right is Some && red_link(f.right->0.left) {
        let b = h.right->0;
        assert(llrb_top(*b) && llrb_shape(b.left) && llrb_shape(b.right));
        let c = b.left->0;
        assert(llrb_top(*c) && llrb_shape(c.left) && llrb_shape(c.right));
        let m = moved_red_left(h);
        let ff = m.left->0;
        assert(ff.left == f.left);
        assert(ff.right == c.left);
        assert(black_depth(f.left) == black_depth(a.left));
        assert(black_depth(Some(b)) == black_depth(b.left) + 1);
        assert(black_depth(b.left) == black_depth(c.left));
        assert(llrb_top(*ff));
        assert(llrb_shape(m.left));
    }
}

/// A removal on one side of `h` that left a tree as deep in black links, black where the
/// subtree was black: `fix_up` may run; it makes a tree as deep as `h` and, under a black
/// `h` whose other child is black, with a black root.
proof fn lemma_kept_after<K, V>(h: Node<K, ColoredValue<V>>, left: bool, r: Option<Box<Node<K, ColoredValue<V>>>>, n1: Node<K, ColoredValue<V>>)
    requires
        shrunk(h),
        llrb_shape(r),
        left ==> black_depth(r) == black_depth(h.left) && (!red_link(h.left) ==> !red_link(r)) && n1.left == r && n1.right
            == h.right,
        !left ==> black_depth(r) == black_depth(h.right) && (!red_link(h.right) ==> !red_link(r)) && n1.right == r
            && n1.left == h.left,
        n1.value.color == h.value.color,
        h.value.color == RED ==> !red_link(h.left) && !red_link(h.right),
    ensures
        shrunk_calm(n1),
        black_depth(Some(Box::new(n1))) == black_depth(Some(Box::new(h))),
        left ==> (!red_link(h.right) ==> !(red_link(n1.left) && red_link(n1.right))),
        !left ==> (!red_link(h.left) ==> !(red_link(n1.left) && red_link(n1.right))),
{
    assert(black_depth(Some(Box::new(n1))) == (if n1.value.color == RED { 0int } else { 1int }) + black_depth(n1.left));
    assert(black_depth(Some(Box::new(h))) == (if h.value.color == RED { 0int } else { 1int }) + black_depth(h.left));
}

/// A left-leaning red-black tree is what a removal may leave below it on either side.
proof fn lemma_shape_shrunk<K, V>(h: Node<K, ColoredValue<V>>)
    requires
        llrb_shape(Some(Box::new(h))),
    ensures
        shrunk(h),
        !red_link(h.right),
        h.value.color == RED ==> !red_link(h.left),
{
    assert(llrb_top(h) && llrb_shape(h.left) && llrb_shape(h.right));
}

/// A black node with a black left child and a red right child, both subtrees left-leaning
/// red-black trees as deep in black links: what moving red to the right leaves for a
/// removal to start at, on the right of the node's key.
pub open spec fn right_heavy<K, V>(h: Node<K, ColoredValue<V>>) -> bool {
    &&& h.value.color == BLACK
    &&& !red_link(h.left)
    &&& red_link(h.right)
    &&& shrunk(h)
}

/// Moving red to the right of a left-leaning red-black tree whose left child is black and
/// whose right child and right grandchild on the left are black leaves on the right a
/// tree that a removal may start at: a red one, or a right-heavy one under a left child
/// that rose.
proof fn lemma_moved_right_child<K, V>(h: Node<K, ColoredValue<V>>)
    requires
        llrb_shape(Some(Box::new(h))),
        !red_link(h.left),
        h.right is Some,
        !red_link(h.right->0.left),
    ensures
        moved_red_right(h).right is Some,
        h.left is Some && red_link(h.left->0.left) ==> right_heavy(*moved_red_right(h).right->0) && moved_red_right(h).right->0.key
            == h.key && moved_red_right(h).key == h.left->0.key,
        !(h.left is Some && red_link(h.left->0.left)) ==> removable(*moved_red_right(h).right->0) && moved_red_right(h).key
            == h.key,
{
    assert(llrb_top(h) && llrb_shape(h.left) && llrb_shape(h.right));
    let b = h.right->0;
    assert(llrb_top(*b) && llrb_shape(b.left) && llrb_shape(b.right));
    lemma_black_depth_nonneg(b.left);
    assert(h.left is Some);
    let a = h.left->0;
    assert(llrb_top(*a) && llrb_shape(a.left) && llrb_shape(a.right));
    assert(black_depth(h.left) == 1 + black_depth(a.left));
    assert(black_depth(h.right) == 1 + black_depth(b.left));
    let f = flipped(h);
    let m = moved_red_right(h);
    if red_link(a.left) {
        let al = a.left->0;
        assert(llrb_top(*al) && llrb_shape(al.left) && llrb_shape(al.right));
        let g = m.right->0;
        assert(g.left == a.right && g.right == f.right && g.value.color == BLACK);
        assert(black_depth(f.right) == black_depth(b.left));
        assert(llrb_shape(g.right));
        assert(black_depth(a.left) == black_depth(al.left));
        assert(shrunk(*g));
    } else {
        assert(llrb_shape(f.right));
    }
}

/// After moving red to the right and a removal in the right subtree that left a tree as
/// deep in black links, black where the subtree was: `fix_up` may run, and makes a tree as
/// deep as the one before the move when its root was red.
proof fn lemma_moved_right_after<K, V>(h: Node<K, ColoredValue<V>>, r: Option<Box<Node<K, ColoredValue<V>>>>, n1: Node<K, ColoredValue<V>>)
    requires
        llrb_shape(Some(Box::new(h))),
        !red_link(h.left),
        h.right is Some,
        !red_link(h.right->0.left),
        llrb_shape(r),
        black_depth(r) == black_depth(moved_red_right(h).right),
        !red_link(moved_red_right(h).right) ==> !red_link(r),
        n1.right == r,
        n1.left == moved_red_right(h).left,
        n1.value.color == moved_red_right(h).value.color,
    ensures
        shrunk(n1),
        h.value.color == RED ==> shrunk_calm(n1) && black_depth(Some(Box::new(n1))) == black_depth(Some(Box::new(h))),
{
    assert(llrb_top(h) && llrb_shape(h.left) && llrb_shape(h.right));
    let b = h.right->0;
    assert(llrb_top(*b) && llrb_shape(b.left) && llrb_shape(b.right));
    lemma_black_depth_nonneg(b.left);
    assert(h.left is Some);
    let a = h.left->0;
    assert(llrb_top(*a) && llrb_shape(a.left) && llrb_shape(a.right));
    assert(black_depth(h.left) == 1 + black_depth(a.left));
    assert(black_depth(h.right) == 1 + black_depth(b.left));
    let f = flipped(h);
    let m = moved_red_right(h);
    if red_link(a.left) {
        let al = a.left->0;
        assert(llrb_top(*al) && llrb_shape(al.left) && llrb_shape(al.right));
        let g = m.right->0;
        assert(g.left == a.right && g.right == f.right && g.value.color == BLACK);
        assert(black_depth(f.right) == black_depth(b.left));
        assert(black_depth(m.right) == 1 + black_depth(a.right));
        let ml = m.left->0;
        assert(ml.left == al.left && ml.right == al.right && ml.value.color == BLACK);
        assert(llrb_top(*ml));
        assert(llrb_shape(m.left));
        assert(black_depth(m.left) == 1 + black_depth(al.left));
        assert(black_depth(a.left) == black_depth(al.left));
    } else {
        let ap = f.left->0;
        assert(ap.left == a.left && ap.right == a.right && ap.value.color == RED);
        assert(llrb_shape(f.left));
        assert(black_depth(f.left) == black_depth(a.left));
        assert(black_depth(f.right) == black_depth(b.left));
    }
    assert(black_depth(Some(Box::new(n1))) == (if n1.value.color == RED { 0int } else { 1int }) + black_depth(n1.left));
    assert(black_depth(Some(Box::new(h))) == (if h.value.color == RED { 0int } else { 1int }) + black_depth(h.left));
}

/// Rotating right a black node with a red left child of a left-leaning red-black tree
/// leaves the old root, red, on the right: a tree that a removal may start at, under a
/// black node over two subtrees as deep in black links as the tree was below its root.
proof fn lemma_zag_ready<K, V>(h: Node<K, ColoredValue<V>>)
    requires
        llrb_shape(Some(Box::new(h))),
        red_link(h.left),
    ensures
        zagged(h).right is Some,
        removable(*zagged(h).right->0),
        zagged(h).right->0.key == h.key,
        shrunk(zagged(h)),
        zagged(h).value.color == BLACK,
        !red_link(zagged(h).left),
        black_depth(Some(Box::new(zagged(h)))) == black_depth(Some(Box::new(h))),
{
    assert(llrb_top(h) && llrb_shape(h.left) && llrb_shape(h.right));
    let a = h.left->0;
    assert(llrb_top(*a) && llrb_shape(a.left) && llrb_shape(a.right));
    let z = zagged(h);
    let hr = z.right->0;
    assert(hr.left == a.right && hr.right == h.right && hr.value.color == RED);
    assert(llrb_top(*hr));
    assert(llrb_shape(z.right));
    assert(black_depth(z.right) == black_depth(a.right));
}

/// No tree has a negative depth in black links.
proof fn lemma_black_depth_nonneg<K, V>(link: Option<Box<Node<K, ColoredValue<V>>>>)
    ensures
        black_depth(link) >= 0,
    decreases link,
{
    if let Some(n) = link {
        lemma_black_depth_nonneg(n.left);
    }
}

/// After moving red to the left and a removal in the left subtree that left a tree as deep
/// in black links, black where the subtree was: `fix_up` may run, and makes a tree as deep
/// as the one before the move when its root was red.
proof fn lemma_moved_left_after<K, V>(h: Node<K, ColoredValue<V>>, r: Option<Box<Node<K, ColoredValue<V>>>>, n1: Node<K, ColoredValue<V>>)
    requires
        llrb_shape(Some(Box::new(h))),
        h.left is Some,
        !red_link(h.left),
        !red_link(h.left->0.left),
        llrb_shape(r),
        black_depth(r) == black_depth(moved_red_left(h).left),
        !red_link(moved_red_left(h).left) ==> !red_link(r),
        n1.left == r,
        n1.right == moved_red_left(h).right,
        n1.value.color == moved_red_left(h).value.color,
    ensures
        shrunk(n1),
        h.value.color == RED ==> shrunk_calm(n1) && black_depth(Some(Box::new(n1))) == black_depth(Some(Box::new(h))),
{
    let a = h.left->0;
    assert(llrb_top(h) && llrb_shape(h.left) && llrb_shape(h.right));
    assert(llrb_top(*a) && llrb_shape(a.left) && llrb_shape(a.right));
    lemma_black_depth_nonneg(a.left);
    assert(h.right is Some);
    let b = h.right->0;
    assert(llrb_top(*b) && llrb_shape(b.left) && llrb_shape(b.right));
    assert(black_depth(h.left) == 1 + black_depth(a.left));
    assert(black_depth(h.right) == 1 + black_depth(b.left));
    let f = flipped(h);
    let m = moved_red_left(h);
    if f.right is Some && red_link(f.right->0.left) {
        let c = b.left->0;
        assert(llrb_top(*c) && llrb_shape(c.left) && llrb_shape(c.right));
        let g = m.right->0;
        assert(g.left == c.right && g.right == b.right && g.value.color == BLACK);
        assert(llrb_top(*g));
        assert(llrb_shape(m.right));
        assert(black_depth(m.right) == 1 + black_depth(c.right));
        assert(black_depth(m.left) == 1 + black_depth(f.left));
        assert(black_depth(f.left) == black_depth(a.left));
    } else {
        let bp = f.right->0;
        assert(bp.left == b.left && bp.right == b.right && bp.value.color == RED);
        assert(llrb_shape(f.right));
        assert(black_depth(f.right) == black_depth(b.left));
        assert(black_depth(f.left) == black_depth(a.left));
    }
    assert(black_depth(Some(Box::new(n1))) == (if n1.value.color == RED { 0int } else { 1int }) + black_depth(r));
    assert(black_depth(Some(Box::new(h))) == (if h.value.color == RED { 0int } else { 1int }) + black_depth(h.left));
}

/// Makes the left child of `node`, or one of its children, red before a deletion descends
/// to the left.
fn move_red_left<K: MapKey, V>(node: Box<Node<K, ColoredValue<V>>>) -> (r: Box<Node<K, ColoredValue<V>>>)
    requires
        link_wf(Some(node)),
    ensures
        link_wf(Some(r)),
        elem_map(Some(r)) == elem_map(Some(node)),
        link_count(Some(r)) == link_count(Some(node)),
        r.key@ == node.key@ || key_lt::<K>(node.key@, r.key@),
        *r == moved_red_left(*node),
{
    let mut node = flip(node);
    let right_left_red = match &node.right {
        Some(r) => is_red(&r.left),
        None => false,
    };
    if right_left_red {
        let ghost n1 = *node;
        let right = match node.right.take() {
            Some(r) => r,
            None => {
                proof {
                    assert(false);
                }
                return node;
            },
        };
        proof {
            assert(link_wf(n1.right));
        }
        let rotated = zag(right);
        proof {
            lemma_elem_map_same(Some(rotated), n1.right);
        }
        node.right = Some(rotated);
        proof {
            assert(same_elems(n1.left, node.left));
            lemma_wf_same_elems(n1, *node);
            lemma_same_elems_node(*node, n1);
            lemma_same_elems(Some(node), Some(Box::new(n1)));
        }
        node = zig(node);
        node = flip(node);
    }
    node
}

/// Makes the right child of `node`, or one of its children, red before a deletion
/// descends to the right.
fn move_red_right<K: MapKey, V>(node: Box<Node<K, ColoredValue<V>>>) -> (r: Box<Node<K, ColoredValue<V>>>)
    requires
        link_wf(Some(node)),
    ensures
        link_wf(Some(r)),
        elem_map(Some(r)) == elem_map(Some(node)),
        link_count(Some(r)) == link_count(Some(node)),
        r.key@ == node.key@ || key_lt::<K>(r.key@, node.key@),
        *r == moved_red_right(*node),
        red_link(flipped(*node).left) && red_link(flipped(*node).left->0.left) ==> key_lt::<K>(r.key@, node.key@),
{
    let mut node = flip(node);
    if left_left_red(&node) {
        node = zag(node);
        node = flip(node);
    }
    node
}


/// Looking a key up in a node, for the entries without colors.
proof fn lemma_elem_lookup<K: MapKey, V>(n: Node<K, ColoredValue<V>>, k: K::V)
    requires
        link_wf(Some(Box::new(n))),
    ensures
        k == n.key@ ==> elem_map(Some(Box::new(n))).dom().contains(k) && elem_map(Some(Box::new(n)))[k] == n.value.elem,
        key_lt::<K>(k, n.key@) ==> !elem_map(n.right).dom().contains(k) && (elem_map(Some(Box::new(n))).dom().contains(k)
            <==> elem_map(n.left).dom().contains(k)) && (elem_map(n.left).dom().contains(k) ==> elem_map(
            Some(Box::new(n)),
        )[k] == elem_map(n.left)[k]),
        key_lt::<K>(n.key@, k) ==> !elem_map(n.left).dom().contains(k) && (elem_map(Some(Box::new(n))).dom().contains(k)
            <==> elem_map(n.right).dom().contains(k)) && (elem_map(n.right).dom().contains(k) ==> elem_map(
            Some(Box::new(n)),
        )[k] == elem_map(n.right)[k]),
{
    lemma_lookup::<K, ColoredValue<V>>(n, k);
}

/// Inserts `key` with `value` below `link`, rebalancing on the way back up; returns the
/// new root and the value the key held before, if any.
fn insert<K: MapKey, V>(link: Option<Box<Node<K, ColoredValue<V>>>>, key: K, value: V) -> (r: (
    Box<Node<K, ColoredValue<V>>>,
    Option<V>,
))
    requires
        link_wf(link),
        link_count(link) < usize::MAX,
    ensures
        link_wf(Some(r.0)),
        elem_map(Some(r.0)) == elem_map(link).insert(key@, value),
        elem_map(link).dom().contains(key@) ==> r.1 == Some(elem_map(link)[key@]) && link_count(Some(r.0)) == link_count(
            link,
        ),
        !elem_map(link).dom().contains(key@) ==> r.1 is None && link_count(Some(r.0)) == link_count(link) + 1,
        llrb_shape(link) ==> llrb_top(*r.0) && llrb_shape(r.0.left) && llrb_shape(r.0.right) && black_depth(Some(r.0))
            == black_depth(link) && (r.0.value.color == RED && red_link(r.0.left) ==> red_link(link)),
    decreases link,
{
    match link {
        None => {
            let n = Box::new(Node::new(key, ColoredValue { elem: value, color: RED }));
            proof {
                assert(elem_map(Some(n)) =~= elem_map(link).insert(key@, value));
            }
            (n, None)
        },
        Some(mut node) => {
            let ghost n0 = *node;
            proof {
                lemma_elem_lookup::<K, V>(n0, key@);
            }
            let old = match key.compare(&node.key) {
                Cmp::Less => {
                    let (child, old) = insert(node.left.take(), key, value);
                    node.left = Some(child);
                    old
                },
                Cmp::Greater => {
                    let (child, old) = insert(node.right.take(), key, value);
                    node.right = Some(child);
                    old
                },
                Cmp::Equal => {
                    let mut old = value;
                    std::mem::swap(&mut node.value.elem, &mut old);
                    Some(old)
                },
            };
            proof {
                lemma_size_is_count(node.left);
                lemma_size_is_count(node.right);
            }
            node.size = Node::size(&node.left) + Node::size(&node.right) + 1;
            proof {
                let m0 = elem_map(Some(Box::new(n0)));
                let m1 = elem_map(Some(node));
                assert forall|k: K::V| #[trigger] link_map(node.left).dom().contains(k) implies key_lt::<K>(k, node.key@) by {
                    assert(elem_map(node.left).dom().contains(k));
                    if k != key@ {
                        assert(elem_map(n0.left).dom().contains(k));
                    }
                }
                assert forall|k: K::V| #[trigger] link_map(node.right).dom().contains(k) implies key_lt::<K>(node.key@, k) by {
                    assert(elem_map(node.right).dom().contains(k));
                    if k != key@ {
                        assert(elem_map(n0.right).dom().contains(k));
                    }
                }
                assert(link_wf(Some(node)));
                assert forall|k: K::V| #[trigger] m1.dom().contains(k) == m0.insert(key@, value).dom().contains(k) by {
                    lemma_elem_lookup::<K, V>(*node, k);
                    lemma_elem_lookup::<K, V>(n0, k);
                    lemma_lt_trichotomy::<K>(k, n0.key@);
                }
                assert forall|k: K::V| #[trigger] m1.dom().contains(k) implies m1[k] == m0.insert(key@, value)[k] by {
                    lemma_elem_lookup::<K, V>(*node, k);
                    lemma_elem_lookup::<K, V>(n0, k);
                    lemma_lt_trichotomy::<K>(k, n0.key@);
                }
                assert(m1 =~= m0.insert(key@, value));
                if llrb_shape(link) {
                    assert(llrb_top(n0) && llrb_shape(n0.left) && llrb_shape(n0.right));
                    assert(!(n0.value.color == RED && red_link(n0.left)));
                    assert(node.value.color == n0.value.color);
                    if node.left is Some {
                        let c = node.left->0;
                        assert(black_depth(node.left) == (if c.value.color == RED { 0int } else { 1int }) + black_depth(c.left));
                    }
                    if node.right is Some {
                        let c = node.right->0;
                        assert(black_depth(node.right) == (if c.value.color == RED { 0int } else { 1int }) + black_depth(c.left));
                    }
                    if n0.left is Some {
                        let c = n0.left->0;
                        assert(black_depth(n0.left) == (if c.value.color == RED { 0int } else { 1int }) + black_depth(c.left));
                    }
                    if n0.right is Some {
                        let c = n0.right->0;
                        assert(black_depth(n0.right) == (if c.value.color == RED { 0int } else { 1int }) + black_depth(c.left));
                    }
                    lemma_lt_trichotomy::<K>(key@, n0.key@);
                    if key_lt::<K>(key@, n0.key@) {
                        assert(grown_left(*node));
                    } else if key_lt::<K>(n0.key@, key@) {
                        assert(grown_right(*node));
                    } else {
                        assert(llrb_shape(Some(node)));
                    }
                }
            }
            let ghost n1 = *node;
            let r = fix_up(node);
            proof {
                if llrb_shape(link) {
                    assert(black_depth(Some(Box::new(n1))) == (if n1.value.color == RED { 0int } else { 1int }) + black_depth(n1.left));
                    assert(black_depth(link) == (if n0.value.color == RED { 0int } else { 1int }) + black_depth(n0.left));
                }
            }
            (r, old)
        },
    }
}


/// Removes the node with the smallest key from the tree rooted at `node`, keeping the
/// tree balanced; returns the rest of the tree and the removed node.
fn delete_min<K: MapKey, V>(node: Box<Node<K, ColoredValue<V>>>) -> (r: (
    Option<Box<Node<K, ColoredValue<V>>>>,
    Box<Node<K, ColoredValue<V>>>,
))
    requires
        link_wf(Some(node)),
    ensures
        link_wf(r.0),
        elem_map(Some(node)).dom().contains(r.1.key@),
        elem_map(Some(node))[r.1.key@] == r.1.value.elem,
        forall|k: K::V| #[trigger] elem_map(Some(node)).dom().contains(k) && k != r.1.key@ ==> key_lt::<K>(r.1.key@, k),
        elem_map(r.0) == elem_map(Some(node)).remove(r.1.key@),
        link_count(r.0) + 1 == link_count(Some(node)),
        removable(*node) ==> llrb_shape(r.0) && black_depth(r.0) == black_depth(Some(node)) && (node.value.color == BLACK
            ==> !red_link(r.0)),
    decreases link_count(Some(node)),
{
    let ghost m_in = elem_map(Some(node));
    let ghost h0 = *node;
    let mut node = node;
    let ghost mut moved = false;
    if node.left.is_some() {
        let left_left_red_now = match &node.left {
            Some(l) => is_red(&l.left),
            None => false,
        };
        if !is_red(&node.left) && !left_left_red_now {
            proof {
                if removable(h0) {
                    lemma_moved_left_child(h0);
                }
            }
            node = move_red_left(node);
            proof {
                moved = true;
            }
        }
    }
    let ghost n0 = *node;
    proof {
        if removable(h0) {
            lemma_shape_shrunk(h0);
            if moved {
                assert(h0.value.color == RED);
            } else {
                assert(n0 == h0);
            }
        }
    }
    proof {
        lemma_elem_lookup::<K, V>(n0, n0.key@);
    }
    match node.left.take() {
        None => {
            let right = node.right.take();
            proof {
                let m0 = elem_map(Some(Box::new(n0)));
                assert(elem_map(n0.left) =~= Map::<K::V, V>::empty());
                assert(elem_map(right) =~= m0.remove(n0.key@)) by {
                    assert forall|k: K::V| #[trigger] elem_map(right).dom().contains(k) implies k != n0.key@ by {
                        assert(link_map(right).dom().contains(k));
                        assert(key_lt::<K>(n0.key@, k));
                    }
                    assert forall|k: K::V| #[trigger] m0.dom().contains(k) && k != n0.key@ implies elem_map(right).dom().contains(k) by {
                        lemma_elem_lookup::<K, V>(n0, k);
                        lemma_lt_trichotomy::<K>(k, n0.key@);
                    }
                }
                assert forall|k: K::V| #[trigger] m0.dom().contains(k) && k != n0.key@ implies key_lt::<K>(n0.key@, k) by {
                    lemma_elem_lookup::<K, V>(n0, k);
                    lemma_lt_trichotomy::<K>(k, n0.key@);
                }
                if removable(h0) {
                    assert(!moved);
                    assert(h0.value.color == RED);
                    if right is Some {
                        lemma_black_depth_nonneg(right->0.left);
                    }
                }
            }
            (right, node)
        },
        Some(left) => {
            proof {
                assert(link_count(Some(left)) < link_count(Some(Box::new(n0))));
                if removable(h0) && !moved {
                    assert(llrb_shape(n0.left));
                    assert(removable(*left));
                }
            }
            let (rest, deleted) = delete_min(left);
            node.left = rest;
            proof {
                lemma_size_is_count(node.left);
                lemma_size_is_count(node.right);
            }
            node.size = Node::size(&node.left) + Node::size(&node.right) + 1;
            proof {
                let m0 = elem_map(Some(Box::new(n0)));
                let m1 = elem_map(Some(node));
                let d = deleted.key@;
                assert(link_map(n0.left).dom().contains(d));
                assert(key_lt::<K>(d, n0.key@));
                lemma_elem_lookup::<K, V>(n0, d);
                assert forall|k: K::V| #[trigger] link_map(node.left).dom().contains(k) implies key_lt::<K>(k, node.key@) by {
                    assert(elem_map(node.left).dom().contains(k));
                    assert(elem_map(n0.left).dom().contains(k));
                }
                assert(link_wf(Some(node)));
                assert forall|k: K::V| #[trigger] m0.dom().contains(k) && k != d implies key_lt::<K>(d, k) by {
                    lemma_elem_lookup::<K, V>(n0, k);
                    lemma_lt_trichotomy::<K>(k, n0.key@);
                    if key_lt::<K>(n0.key@, k) {
                        lemma_lt_transitive::<K>(d, n0.key@, k);
                    }
                }
                assert forall|k: K::V| #[trigger] m1.dom().contains(k) == m0.remove(d).dom().contains(k) by {
                    lemma_elem_lookup::<K, V>(*node, k);
                    lemma_elem_lookup::<K, V>(n0, k);
                    lemma_lt_trichotomy::<K>(k, n0.key@);
                }
                assert forall|k: K::V| #[trigger] m1.dom().contains(k) implies m1[k] == m0.remove(d)[k] by {
                    lemma_elem_lookup::<K, V>(*node, k);
                    lemma_elem_lookup::<K, V>(n0, k);
                    lemma_lt_trichotomy::<K>(k, n0.key@);
                }
                assert(m1 =~= m0.remove(d));
                if removable(h0) {
                    if moved {
                        lemma_moved_left_after(h0, rest, *node);
                    } else {
                        lemma_kept_after(h0, true, rest, *node);
                    }
                }
            }
            (Some(fix_up(node)), deleted)
        },
    }
}


/// The entries of a node whose subtree on one side changed: proved key by key from the
/// node's order.
proof fn lemma_child_changed<K: MapKey, V>(
    n0: Node<K, ColoredValue<V>>,
    n1: Node<K, ColoredValue<V>>,
    key: K::V,
)
    requires
        link_wf(Some(Box::new(n0))),
        link_wf(n1.left),
        link_wf(n1.right),
        n1.key == n0.key,
        n1.value.elem == n0.value.elem,
        n1.size == link_count(n1.left) + link_count(n1.right) + 1,
        key_lt::<K>(key, n0.key@) ==> n1.right == n0.right && elem_map(n1.left) == elem_map(n0.left).remove(key),
        key_lt::<K>(n0.key@, key) ==> n1.left == n0.left && elem_map(n1.right) == elem_map(n0.right).remove(key),
        key_lt::<K>(key, n0.key@) || key_lt::<K>(n0.key@, key),
    ensures
        link_wf(Some(Box::new(n1))),
        elem_map(Some(Box::new(n1))) == elem_map(Some(Box::new(n0))).remove(key),
{
    let m0 = elem_map(Some(Box::new(n0)));
    let m1 = elem_map(Some(Box::new(n1)));
    assert forall|k: K::V| #[trigger] link_map(n1.left).dom().contains(k) implies key_lt::<K>(k, n1.key@) by {
        assert(elem_map(n1.left).dom().contains(k));
        assert(elem_map(n0.left).dom().contains(k));
    }
    assert forall|k: K::V| #[trigger] link_map(n1.right).dom().contains(k) implies key_lt::<K>(n1.key@, k) by {
        assert(elem_map(n1.right).dom().contains(k));
        assert(elem_map(n0.right).dom().contains(k));
    }
    assert(link_wf(Some(Box::new(n1))));
    assert forall|k: K::V| #[trigger] m1.dom().contains(k) == m0.remove(key).dom().contains(k) by {
        lemma_elem_lookup::<K, V>(n1, k);
        lemma_elem_lookup::<K, V>(n0, k);
        lemma_lt_trichotomy::<K>(k, n0.key@);
        lemma_lt_trichotomy::<K>(key, n0.key@);
    }
    assert forall|k: K::V| #[trigger] m1.dom().contains(k) implies m1[k] == m0.remove(key)[k] by {
        lemma_elem_lookup::<K, V>(n1, k);
        lemma_elem_lookup::<K, V>(n0, k);
        lemma_lt_trichotomy::<K>(k, n0.key@);
        lemma_lt_trichotomy::<K>(key, n0.key@);
    }
    assert(m1 =~= m0.remove(key));
}

/// What a removal of `key` from the tree rooted at `h` hands back: the rest of the tree,
/// holding the other entries in search order, and the node that held the entry, if any;
/// when the removal may start at `h`, a left-leaning red-black tree as deep in black links,
/// black when `h` is; from any left-leaning red-black tree, one but that a red root may
/// have a red left child.
pub open spec fn removal_done<K: MapKey, V>(
    h: Node<K, ColoredValue<V>>,
    key: K::V,
    r: (Option<Box<Node<K, ColoredValue<V>>>>, Option<Box<Node<K, ColoredValue<V>>>>),
) -> bool {
    &&& link_wf(r.0)
    &&& elem_map(r.0) == elem_map(Some(Box::new(h))).remove(key)
    &&& match r.1 {
        Some(d) => elem_map(Some(Box::new(h))).dom().contains(key) && d.key@ == key && d.value.elem == elem_map(
            Some(Box::new(h)),
        )[key] && link_count(r.0) + 1 == link_count(Some(Box::new(h))),
        None => !elem_map(Some(Box::new(h))).dom().contains(key) && link_count(r.0) == link_count(Some(Box::new(h))),
    }
    &&& llrb_shape(Some(Box::new(h))) || (right_heavy(h) && !key_lt::<K>(key, h.key@)) ==> top_ok(r.0)
    &&& removable(h) || (right_heavy(h) && !key_lt::<K>(key, h.key@)) ==> llrb_shape(r.0) && black_depth(r.0) == black_depth(
        Some(Box::new(h)),
    ) && (h.value.color == BLACK ==> !red_link(r.0))
}

/// Removes the entry for `key` from the tree rooted at `node`, keeping the tree balanced;
/// returns the rest of the tree and the node that held the entry, if any.
fn delete<K: MapKey, V>(node: Box<Node<K, ColoredValue<V>>>, key: &K) -> (r: (
    Option<Box<Node<K, ColoredValue<V>>>>,
    Option<Box<Node<K, ColoredValue<V>>>>,
))
    requires
        link_wf(Some(node)),
    ensures
        removal_done(*node, key@, r),
    decreases link_count(Some(node)), 1int,
{
    match key.compare(&node.key) {
        Cmp::Less => delete_left(node, key),
        _ => {
            proof {
                lemma_lt_trichotomy::<K>(key@, node.key@);
            }
            delete_right(node, key)
        },
    }
}

/// Removes the entry for `key`, smaller than the key at `node`, from the tree rooted at
/// `node`: moves red to the left when the left child and its left child are black, and
/// removes below on the left.
#[verifier::rlimit(50)]
fn delete_left<K: MapKey, V>(node: Box<Node<K, ColoredValue<V>>>, key: &K) -> (r: (
    Option<Box<Node<K, ColoredValue<V>>>>,
    Option<Box<Node<K, ColoredValue<V>>>>,
))
    requires
        link_wf(Some(node)),
        key_lt::<K>(key@, node.key@),
    ensures
        removal_done(*node, key@, r),
    decreases link_count(Some(node)), 0int,
{
    let ghost m_in = elem_map(Some(node));
    let ghost k_in = node.key@;
    let ghost h0 = *node;
    let ghost shaped = llrb_shape(Some(Box::new(h0))) || (right_heavy(h0) && !key_lt::<K>(key@, h0.key@));
    proof {
        if llrb_shape(Some(Box::new(h0))) {
            lemma_shape_shrunk(h0);
        }
    }
    let mut node = node;
        proof {
            if right_heavy(h0) {
                assert(key_lt::<K>(key@, h0.key@));
            }
        }
        if node.left.is_none() {
            proof {
                lemma_elem_lookup::<K, V>(*node, key@);
                assert(m_in.remove(key@) =~= m_in);
            }
            return (Some(node), None);
        }
        let left_left_red_now = match &node.left {
            Some(l) => is_red(&l.left),
            None => false,
        };
        let ghost mut moved = false;
        if !is_red(&node.left) && !left_left_red_now {
            proof {
                if shaped {
                    lemma_moved_left_child(h0);
                }
                moved = true;
            }
            node = move_red_left(node);
        }
        let ghost n0 = *node;
        proof {
            if shaped && !moved {
                assert(n0 == h0);
                assert(llrb_shape(h0.left));
                assert(removable(*h0.left->0));
            }
        }
        proof {
            assert(key_lt::<K>(key@, n0.key@)) by {
                if n0.key@ != k_in {
                    lemma_lt_transitive::<K>(key@, k_in, n0.key@);
                }
            }
            lemma_elem_lookup::<K, V>(n0, key@);
        }
        match node.left.take() {
            Some(left) => {
                proof {
                    assert(link_count(Some(left)) < link_count(Some(Box::new(n0))));
                }
                let (rest, deleted) = delete(left, key);
                node.left = rest;
                proof {
                    lemma_size_is_count(node.left);
                    lemma_size_is_count(node.right);
                }
                node.size = Node::size(&node.left) + Node::size(&node.right) + 1;
                proof {
                    lemma_lt_trichotomy::<K>(key@, n0.key@);
                    lemma_child_changed::<K, V>(n0, *node, key@);
                    if shaped {
                        if moved {
                            lemma_moved_left_after(h0, rest, *node);
                        } else {
                            lemma_kept_after(h0, true, rest, *node);
                        }
                    }
                }
                (Some(fix_up(node)), deleted)
            },
            None => {
                proof {
                    assert(m_in.remove(key@) =~= m_in);
                    if shaped && !moved {
                        assert(n0 == h0);
                    }
                }
                (Some(node), None)
            },
        }
}

/// Removes the entry for `key`, not smaller than the key at `node`, from the tree rooted at
/// `node`: rotates a red left child to the top; takes the node out when it holds `key` and
/// has no right child; else moves red to the right when the right child and its left child
/// are black, and removes below on the right, the smallest node there taking the place of
/// the node that holds `key`.
#[verifier::rlimit(50)]
fn delete_right<K: MapKey, V>(node: Box<Node<K, ColoredValue<V>>>, key: &K) -> (r: (
    Option<Box<Node<K, ColoredValue<V>>>>,
    Option<Box<Node<K, ColoredValue<V>>>>,
))
    requires
        link_wf(Some(node)),
        !key_lt::<K>(key@, node.key@),
    ensures
        removal_done(*node, key@, r),
    decreases link_count(Some(node)), 0int,
{
    let ghost m_in = elem_map(Some(node));
    let ghost k_in = node.key@;
    let ghost h0 = *node;
    let ghost shaped = llrb_shape(Some(Box::new(h0))) || (right_heavy(h0) && !key_lt::<K>(key@, h0.key@));
    proof {
        if llrb_shape(Some(Box::new(h0))) {
            lemma_shape_shrunk(h0);
        }
    }
    proof {
        lemma_lt_trichotomy::<K>(key@, k_in);
    }
    let mut node = node;
    let ghost mut zagged_now = false;
    if is_red(&node.left) {
        proof {
            if shaped {
                lemma_zag_ready(h0);
            }
            zagged_now = true;
        }
        node = zag(node);
    }
    let ghost k1 = node.key@;
    proof {
        assert(key_lt::<K>(k1, key@) || k1 == key@) by {
            if k1 != k_in {
                lemma_lt_trichotomy::<K>(key@, k_in);
                if key@ != k_in {
                    lemma_lt_transitive::<K>(k1, k_in, key@);
                }
            }
        }
    }
    let first = key.compare(&node.key);
    proof {
        lemma_lt_trichotomy::<K>(key@, k1);
    }
    if first == Cmp::Equal && node.right.is_none() {
        let ghost n0 = *node;
        proof {
            lemma_elem_lookup::<K, V>(n0, key@);
            if shaped {
                assert(!zagged_now);
                assert(n0 == h0);
                if h0.left is Some {
                    lemma_black_depth_nonneg(h0.left->0.left);
                }
                assert(h0.left is None);
            }
        }
        let left = node.left.take();
        proof {
            assert(elem_map(left) =~= m_in.remove(key@)) by {
                assert forall|k: K::V| #[trigger] elem_map(left).dom().contains(k) implies k != key@ by {
                    assert(link_map(left).dom().contains(k));
                }
                assert forall|k: K::V| #[trigger] m_in.dom().contains(k) && k != key@ implies elem_map(left).dom().contains(k) by {
                    lemma_elem_lookup::<K, V>(n0, k);
                    lemma_lt_trichotomy::<K>(k, n0.key@);
                }
                assert forall|k: K::V| #[trigger] elem_map(left).dom().contains(k) implies elem_map(left)[k] == m_in.remove(key@)[k] by {
                    assert(link_map(left).dom().contains(k));
                    lemma_elem_lookup::<K, V>(n0, k);
                }
            }
        }
        return (left, Some(node));
    }
    if first == Cmp::Greater && node.right.is_none() {
        proof {
            lemma_elem_lookup::<K, V>(*node, key@);
            assert(m_in.remove(key@) =~= m_in);
            if shaped {
                assert(!zagged_now);
                assert(*node == h0);
                if h0.left is Some {
                    lemma_black_depth_nonneg(h0.left->0.left);
                }
                assert(h0.left is None);
            }
        }
        return (Some(fix_up(node)), None);
    }
    assert(node.right is Some);
    let right_left_red_now = match &node.right {
        Some(r) => is_red(&r.left),
        None => false,
    };
    let ghost mut rmoved = false;
    if !is_red(&node.right) && !right_left_red_now {
        proof {
            if shaped {
                assert(!zagged_now);
                lemma_moved_right_child(h0);
            }
            rmoved = true;
        }
        node = move_red_right(node);
    }
    let ghost n0 = *node;
    let ghost rot = rmoved && h0.left is Some && red_link(h0.left->0.left);
    proof {
        if shaped {
            if zagged_now {
                assert(n0 == zagged(h0));
            } else if rmoved {
                assert(n0 == moved_red_right(h0));
                if rot {
                    assert(key_lt::<K>(n0.key@, k_in));
                }
            } else {
                assert(n0 == h0);
                if llrb_shape(Some(Box::new(h0))) {
                    let b = h0.right->0;
                    assert(llrb_top(*b) && llrb_shape(b.left) && llrb_shape(b.right));
                }
                assert(removable(*h0.right->0));
            }
        }
        assert(key_lt::<K>(n0.key@, key@) || n0.key@ == key@) by {
            if n0.key@ != k1 {
                if k1 != key@ {
                    lemma_lt_transitive::<K>(n0.key@, k1, key@);
                }
            }
        }
        lemma_elem_lookup::<K, V>(n0, key@);
    }
    if key.compare(&node.key) == Cmp::Equal {
        match node.right.take() {
            Some(right) => {
                proof {
                    if shaped && rot {
                        assert(key@ == n0.key@);
                    }
                }
                let (rest, mut deleted) = delete_min(right);
                let ghost m = deleted.key@;
                node.right = rest;
                std::mem::swap(&mut node.key, &mut deleted.key);
                std::mem::swap(&mut node.value.elem, &mut deleted.value.elem);
                proof {
                    lemma_size_is_count(node.left);
                    lemma_size_is_count(node.right);
                }
                node.size = Node::size(&node.left) + Node::size(&node.right) + 1;
                proof {
                    let m0 = elem_map(Some(Box::new(n0)));
                    let m1 = elem_map(Some(node));
                    assert(node.key@ == m);
                    assert(link_map(n0.right).dom().contains(m));
                    assert(key_lt::<K>(n0.key@, m));
                    assert forall|k: K::V| #[trigger] link_map(node.left).dom().contains(k) implies key_lt::<K>(k, node.key@) by {
                        lemma_lt_transitive::<K>(k, n0.key@, m);
                    }
                    assert forall|k: K::V| #[trigger] link_map(node.right).dom().contains(k) implies key_lt::<K>(node.key@, k) by {
                        assert(elem_map(node.right).dom().contains(k));
                        assert(elem_map(n0.right).dom().contains(k) && k != m);
                    }
                    assert(link_wf(Some(node)));
                    assert forall|k: K::V| #[trigger] m1.dom().contains(k) == m0.remove(key@).dom().contains(k) by {
                        lemma_elem_lookup::<K, V>(*node, k);
                        lemma_elem_lookup::<K, V>(n0, k);
                        lemma_lt_trichotomy::<K>(k, n0.key@);
                        lemma_lt_trichotomy::<K>(k, m);
                        if key_lt::<K>(k, n0.key@) && key_lt::<K>(m, k) {
                            lemma_lt_transitive::<K>(n0.key@, m, k);
                            lemma_lt_trichotomy::<K>(k, n0.key@);
                        }
                    }
                    assert forall|k: K::V| #[trigger] m1.dom().contains(k) implies m1[k] == m0.remove(key@)[k] by {
                        lemma_elem_lookup::<K, V>(*node, k);
                        lemma_elem_lookup::<K, V>(n0, k);
                        lemma_lt_trichotomy::<K>(k, n0.key@);
                        lemma_lt_trichotomy::<K>(k, m);
                        if key_lt::<K>(k, n0.key@) && key_lt::<K>(m, k) {
                            lemma_lt_transitive::<K>(n0.key@, m, k);
                            lemma_lt_trichotomy::<K>(k, n0.key@);
                        }
                    }
                    assert(m1 =~= m0.remove(key@));
                    if shaped {
                        if zagged_now {
                            lemma_kept_after(zagged(h0), false, rest, *node);
                        } else if rmoved {
                            lemma_moved_right_after(h0, rest, *node);
                        } else {
                            lemma_kept_after(h0, false, rest, *node);
                        }
                    }
                }
                (Some(fix_up(node)), Some(deleted))
            },
            None => {
                let left = node.left.take();
                proof {
                    assert(elem_map(left) =~= m_in.remove(key@)) by {
                        assert forall|k: K::V| #[trigger] elem_map(left).dom().contains(k) implies k != key@ by {
                            assert(link_map(left).dom().contains(k));
                        }
                        assert forall|k: K::V| #[trigger] m_in.dom().contains(k) && k != key@ implies elem_map(left).dom().contains(k) by {
                            lemma_elem_lookup::<K, V>(n0, k);
                            lemma_lt_trichotomy::<K>(k, n0.key@);
                        }
                        assert forall|k: K::V| #[trigger] elem_map(left).dom().contains(k) implies elem_map(left)[k] == m_in.remove(key@)[k] by {
                            assert(link_map(left).dom().contains(k));
                            lemma_elem_lookup::<K, V>(n0, k);
                        }
                    }
                }
                (left, Some(node))
            },
        }
    } else {
        proof {
            assert(key_lt::<K>(n0.key@, key@));
        }
        match node.right.take() {
            Some(right) => {
                proof {
                    assert(link_count(Some(right)) < link_count(Some(Box::new(n0))));
                }
                let (rest, deleted) = delete(right, key);
                node.right = rest;
                proof {
                    lemma_size_is_count(node.left);
                    lemma_size_is_count(node.right);
                }
                node.size = Node::size(&node.left) + Node::size(&node.right) + 1;
                proof {
                    lemma_lt_trichotomy::<K>(key@, n0.key@);
                    lemma_child_changed::<K, V>(n0, *node, key@);
                    if shaped {
                        if zagged_now {
                            lemma_kept_after(zagged(h0), false, rest, *node);
                        } else if rmoved {
                            lemma_moved_right_after(h0, rest, *node);
                        } else {
                            lemma_kept_after(h0, false, rest, *node);
                        }
                    }
                }
                (Some(fix_up(node)), deleted)
            },
            None => {
                proof {
                    assert(m_in.remove(key@) =~= m_in);
                }
                (Some(fix_up(node)), None)
            },
        }
    }
}


/// The root of a red-black tree is black.
fn blacken<K: MapKey, V>(node: Box<Node<K, ColoredValue<V>>>) -> (r: Box<Node<K, ColoredValue<V>>>)
    requires
        link_wf(Some(node)),
    ensures
        link_wf(Some(r)),
        elem_map(Some(r)) == elem_map(Some(node)),
        link_count(Some(r)) == link_count(Some(node)),
        r.value.color == BLACK,
        r.left == node.left,
        r.right == node.right,
        top_ok(Some(node)) ==> llrb_shape(Some(r)),
{
    let ghost n0 = *node;
    let mut node = node;
    node.value.color = BLACK;
    proof {
        lemma_wf_same_elems(n0, *node);
        lemma_same_elems_node(*node, n0);
        lemma_same_elems(Some(node), Some(Box::new(n0)));
    }
    node
}

/// The entries of a list without their colors.
pub open spec fn uncolored<K, V>(s: Seq<(K, ColoredValue<V>)>) -> Seq<(K, V)> {
    s.map_values(|p: (K, ColoredValue<V>)| (p.0, p.1.elem))
}

/// Dropping the colors from an in-order list of a tree's entries gives an in-order list
/// of the uncolored entries.
proof fn lemma_uncolored_in_order<K: MapKey, V>(items: Seq<(K, ColoredValue<V>)>, m: Map<K::V, ColoredValue<V>>)
    requires
        lists_in_order(items, m),
    ensures
        lists_in_order(uncolored(items), m.map_values(|c: ColoredValue<V>| c.elem)),
{
    let u = uncolored(items);
    let e = m.map_values(|c: ColoredValue<V>| c.elem);
    assert forall|i: int, j: int| 0 <= i < j < u.len() implies key_lt::<K>((#[trigger] u[i]).0@, (#[trigger] u[j]).0@) by {
        assert(u[i].0 == items[i].0 && u[j].0 == items[j].0);
    }
    assert forall|i: int| 0 <= i < u.len() implies e.dom().contains((#[trigger] u[i]).0@) && e[u[i].0@] == u[i].1 by {
        assert(u[i] == (items[i].0, items[i].1.elem));
    }
    assert forall|k: K::V| #[trigger] e.dom().contains(k) implies exists|i: int| 0 <= i < u.len() && (#[trigger] u[i]).0@ == k by {
        let i = choose|i: int| 0 <= i < items.len() && (#[trigger] items[i]).0@ == k;
        assert(u[i].0 == items[i].0);
    }
}

/// An ordered map kept in a left-leaning red-black tree.
pub struct RBTreeMap<K, V> {
    bst: TreeMap<K, ColoredValue<V>>,
}

impl<K: MapKey, V> View for RBTreeMap<K, V> {
    type V = Map<K::V, V>;

    closed spec fn view(&self) -> Map<K::V, V> {
        elem_map(self.bst.root)
    }
}

impl<K: MapKey, V> RBTreeMap<K, V> {
    /// Keys in search order and node counts recorded right.
    pub closed spec fn wf(&self) -> bool {
        link_wf(self.bst.root)
    }

    /// The map holds finitely many entries.
    pub proof fn lemma_view_finite(&self)
        requires
            self.wf(),
        ensures
            self@.dom().finite(),
    {
        lemma_link_len(self.bst.root);
        assert(self@.dom() =~= link_map(self.bst.root).dom());
    }

    /// The tree is a left-leaning red-black tree: every path down from the root meets as
    /// many black links, no link to a right child is red, and no red link follows another.
    pub closed spec fn is_balanced(&self) -> bool {
        llrb_shape(self.bst.root)
    }

    /// Creates an empty map.
    pub fn new() -> (m: Self)
        ensures
            m.wf(),
            m.is_balanced(),
            m@ == Map::<K::V, V>::empty(),
    {
        let m = RBTreeMap { bst: TreeMap { root: None } };
        assert(m@ =~= Map::<K::V, V>::empty());
        m
    }

    /// The value stored under `key`, if any.
    pub fn get(&self, key: &K) -> (r: Option<&V>)
        requires
            self.wf(),
        ensures
            match r {
                Some(v) => self@.dom().contains(key@) && *v == self@[key@],
                None => !self@.dom().contains(key@),
            },
    {
        match Node::get(&self.bst.root, key) {
            Some(c) => Some(&c.elem),
            None => None,
        }
    }

    /// A mutable reference to the value stored under `key`, if any.
    pub fn get_mut(&mut self, key: &K) -> (r: Option<&mut V>)
        requires
            old(self).wf(),
        ensures
            final(self).wf(),
            old(self).is_balanced() ==> final(self).is_balanced(),
            match r {
                Some(v) => old(self)@.dom().contains(key@) && *v == old(self)@[key@] && final(self)@ == old(self)@.insert(
                    key@,
                    *final(v),
                ),
                None => !old(self)@.dom().contains(key@) && final(self)@ == old(self)@,
            },
    {
        match Node::get_mut(&mut self.bst.root, key) {
            Some(c) => {
                proof {
                    let link = old(self).bst.root;
                    assert forall|v: ColoredValue<V>| v.color == link_map(link)[key@].color && llrb_shape(link) implies llrb_shape(
                        #[trigger] set_value(link, key@, v),
                    ) by {
                        lemma_set_value_shape(link, key@, v);
                    }
                }
                Some(&mut c.elem)
            },
            None => None,
        }
    }

    /// Stores `value` under `key`, returning the value it replaced, if any.
    pub fn insert(&mut self, key: K, value: V) -> (r: Option<V>)
        requires
            old(self).wf(),
            old(self)@.len() < usize::MAX,
        ensures
            final(self).wf(),
            old(self).is_balanced() ==> final(self).is_balanced(),
            final(self)@ == old(self)@.insert(key@, value),
            old(self)@.dom().contains(key@) ==> r == Some(old(self)@[key@]),
            !old(self)@.dom().contains(key@) ==> r is None,
    {
        proof {
            lemma_link_len(self.bst.root);
            assert(self@.dom() =~= link_map(self.bst.root).dom());
        }
        let (root, old) = insert(self.bst.root.take(), key, value);
        let b = blacken(root);
        proof {
            assert(llrb_top(*b) == llrb_top(*root));
        }
        self.bst.root = Some(b);
        old
    }

    /// A mutable reference to the value stored under `key`, after inserting `default`
    /// under it when the key is absent.
    pub fn get_mut_or_insert(&mut self, key: K, default: V) -> (r: &mut V)
        requires
            old(self).wf(),
            old(self)@.len() < usize::MAX,
        ensures
            final(self).wf(),
            old(self).is_balanced() ==> final(self).is_balanced(),
            *r == if old(self)@.dom().contains(key@) {
                old(self)@[key@]
            } else {
                default
            },
            final(self)@ == old(self)@.insert(key@, *final(r)),
    {
        let probe = key.duplicate();
        if self.get(&probe).is_none() {
            self.insert(key, default);
        }
        self.get_mut(&probe).unwrap()
    }

    /// Removes the entry for `key`, returning its value, if any.
    pub fn remove(&mut self, key: &K) -> (r: Option<V>)
        requires
            old(self).wf(),
        ensures
            final(self).wf(),
            final(self)@ == old(self)@.remove(key@),
            old(self)@.dom().contains(key@) ==> r == Some(old(self)@[key@]),
            !old(self)@.dom().contains(key@) ==> r is None,
            old(self).is_balanced() ==> final(self).is_balanced(),
    {
        match self.bst.root.take() {
            Some(root) => {
                let (rest, deleted) = delete(root, key);
                self.bst.root = match rest {
                    Some(n) => Some(blacken(n)),
                    None => None,
                };
                match deleted {
                    Some(node) => Some(node.value.elem),
                    None => None,
                }
            },
            None => {
                assert(old(self)@.remove(key@) =~= old(self)@);
                None
            },
        }
    }

    /// The entries in increasing key order.
    pub fn iter(&self) -> (it: Iter<'_, K, V>)
        requires
            self.wf(),
        ensures
            lists_in_order(it.remaining(), self@),
    {
        proof {
            self.bst.lemma_parts();
        }
        let mut inner = self.bst.iter();
        let ghost all = inner.remaining();
        proof {
            lemma_uncolored_in_order(all, link_map(self.bst.root));
        }
        let mut out: Vec<(&K, &V)> = Vec::new();
        loop
            invariant
                pairs(out@) + uncolored(inner.remaining()) == uncolored(all),
            ensures
                pairs(out@) == uncolored(all),
            decreases inner.remaining().len(),
        {
            let ghost before = out@;
            let ghost rest = inner.remaining();
            match inner.next() {
                Some((k, c)) => {
                    out.push((k, &c.elem));
                    proof {
                        assert(pairs(out@) =~= pairs(before).push((*k, c.elem)));
                        assert(uncolored(rest) =~= seq![(*k, c.elem)] + uncolored(rest.drop_first()));
                        assert(pairs(out@) + uncolored(inner.remaining()) =~= pairs(before) + uncolored(rest));
                    }
                },
                None => {
                    assert(uncolored(inner.remaining()) =~= Seq::<(K, V)>::empty());
                    assert(pairs(out@) =~= pairs(out@) + uncolored(inner.remaining()));
                    break;
                },
            }
        }
        Iter::from_pairs(out)
    }

    /// The number of entries.
    pub fn len(&self) -> (n: usize)
        requires
            self.wf(),
        ensures
            n == self@.len(),
    {
        proof {
            lemma_link_len(self.bst.root);
            lemma_size_is_count(self.bst.root);
            assert(self@.dom() =~= link_map(self.bst.root).dom());
        }
        Node::size(&self.bst.root)
    }

    /// Whether the map has no entry.
    pub fn is_empty(&self) -> (b: bool)
        requires
            self.wf(),
        ensures
            b == (self@.len() == 0),
    {
        self.len() == 0
    }
}

impl<K: MapKey, V> Default for RBTreeMap<K, V> {
    fn default() -> (m: Self)
        ensures
            m.wf(),
            m.is_balanced(),
            m@ == Map::<K::V, V>::empty(),
    {
        RBTreeMap::new()
    }
}

impl<K: MapKey, V> OrderedMap<K, V> for RBTreeMap<K, V> {
    open spec fn contents(&self) -> Map<K::V, V> {
        self@
    }

    open spec fn valid(&self) -> bool {
        self.wf()
    }

    open spec fn can_grow(&self) -> bool {
        self@.len() < usize::MAX
    }

    fn get(&self, key: &K) -> (r: Option<&V>) {
        RBTreeMap::<K, V>::get(self, key)
    }

    fn get_mut(&mut self, key: &K) -> (r: Option<&mut V>) {
        RBTreeMap::<K, V>::get_mut(self, key)
    }

    fn insert(&mut self, key: K, value: V) -> (r: Option<V>) {
        RBTreeMap::<K, V>::insert(self, key, value)
    }

    fn get_mut_or_insert(&mut self, key: K, default: V) -> (r: &mut V) {
        RBTreeMap::<K, V>::get_mut_or_insert(self, key, default)
    }

    fn remove(&mut self, key: &K) -> (r: Option<V>) {
        RBTreeMap::<K, V>::remove(self, key)
    }

    fn len(&self) -> (n: usize) {
        RBTreeMap::<K, V>::len(self)
    }
}

} // verus!
