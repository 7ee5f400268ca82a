//! Strongly connected components by Kosaraju's algorithm.

use vstd::prelude::*;
use super::{adj_wf, count_unmarked, lemma_count_superset, lemma_mark_decreases, lemma_reachable_self, lemma_reachable_step, reachable, is_edge, is_walk, strongly_connected, lemma_reachable_trans, reverses, lemma_reachable_reversed};
use super::adjacency_list::{LinkedGraph, VertexIndex, targets, incoming, lemma_incoming_contains};
use super::order::{DepthFirstOrder, distinct_vertices, index_in, lemma_index_in, finishes_over_later_walks, nested_reachable, avoids};
use super::path::fresh_marks;

verus! {

/// Whether every vertex given the same component number `c` is reachable from one vertex
/// of that number, for each number below `count`.
pub open spec fn components_led(adj: Seq<Seq<int>>, ids: Seq<usize>, count: int) -> bool {
    forall|c: int| 0 <= c < count ==> #[trigger] has_leader(adj, ids, c)
}

/// Whether some vertex leads the component numbered `c`.
pub open spec fn has_leader(adj: Seq<Seq<int>>, ids: Seq<usize>, c: int) -> bool {
    exists|l: int| #[trigger] leads(adj, ids, c, l)
}

/// Whether `l` has component number `c` and reaches every vertex of that number.
pub open spec fn leads(adj: Seq<Seq<int>>, ids: Seq<usize>, c: int, l: int) -> bool {
    &&& 0 <= l < adj.len()
    &&& ids[l] == c
    &&& forall|v: int| 0 <= v < adj.len() && ids[v] == c ==> #[trigger] reachable(adj, l, v)
}

/// Whether `l` is marked, has number `c` and reaches every marked vertex of that number.
spec fn leads_among(adj: Seq<Seq<int>>, ids: Seq<usize>, marked: Seq<bool>, c: int, l: int) -> bool {
    &&& 0 <= l < adj.len()
    &&& marked[l]
    &&& ids[l] == c
    &&& forall|v: int| 0 <= v < adj.len() && marked[v] && ids[v] == c ==> #[trigger] reachable(adj, l, v)
}

/// Whether some marked vertex leads the marked part of component `c`.
spec fn has_leader_among(adj: Seq<Seq<int>>, ids: Seq<usize>, marked: Seq<bool>, c: int) -> bool {
    exists|l: int| #[trigger] leads_among(adj, ids, marked, c, l)
}

/// Every vertex of a walk is reachable from its start and reaches its end.
proof fn lemma_walk_vertex(adj: Seq<Seq<int>>, p: Seq<int>, i: int)
    requires
        is_walk(adj, p),
        0 <= i < p.len(),
    ensures
        reachable(adj, p[0], p[i]),
        reachable(adj, p[i], p.last()),
{
    let a = p.subrange(0, i + 1);
    let b = p.subrange(i, p.len() as int);
    assert forall|k: int| 0 <= k < a.len() - 1 implies #[trigger] is_edge(adj, a[k], a[k + 1]) by {
        assert(is_edge(adj, p[k], p[k + 1]));
    }
    assert forall|k: int| 0 <= k < b.len() - 1 implies #[trigger] is_edge(adj, b[k], b[k + 1]) by {
        assert(is_edge(adj, p[i + k], p[i + k + 1]));
    }
    assert(is_walk(adj, a));
    assert(is_walk(adj, b));
}

/// Being strongly connected is symmetric and transitive.
proof fn lemma_sc_trans(adj: Seq<Seq<int>>, a: int, b: int, c: int)
    requires
        strongly_connected(adj, a, b),
        strongly_connected(adj, b, c),
    ensures
        strongly_connected(adj, a, c),
        strongly_connected(adj, c, a),
{
    lemma_reachable_trans(adj, a, b, c);
    lemma_reachable_trans(adj, c, b, a);
}

/// A vertex of `s` matching `pred`, with none matching before it.
proof fn lemma_first_match(s: Seq<int>, pred: spec_fn(int) -> bool, i: int) -> (j: int)
    requires
        0 <= i < s.len(),
        pred(s[i]),
    ensures
        0 <= j <= i,
        pred(s[j]),
        forall|k: int| 0 <= k < j ==> !pred(#[trigger] s[k]),
    decreases i,
{
    if exists|k: int| 0 <= k < i && pred(#[trigger] s[k]) {
        let k = choose|k: int| 0 <= k < i && pred(#[trigger] s[k]);
        lemma_first_match(s, pred, k)
    } else {
        i
    }
}

/// Whether `pre` and `post` are orders of a depth-first search of all of `h` with the two
/// properties of finishing orders.
pub open spec fn search_orders(h: Seq<Seq<int>>, pre: Seq<int>, post: Seq<int>) -> bool {
    &&& distinct_vertices(pre, h.len() as int)
    &&& distinct_vertices(post, h.len() as int)
    &&& forall|v: int| 0 <= v < h.len() ==> #[trigger] pre.contains(v)
    &&& forall|v: int| 0 <= v < h.len() ==> #[trigger] post.contains(v)
    &&& finishes_over_later_walks(h, pre, post)
    &&& nested_reachable(h, pre, post)
}

/// Along an edge `(a, b)` of `h` that `b` cannot go back on, some vertex strongly connected
/// to `a` finishes after every vertex strongly connected to `b`.
proof fn lemma_edge_component_later(h: Seq<Seq<int>>, pre: Seq<int>, post: Seq<int>, a: int, b: int) -> (z: int)
    requires
        adj_wf(h),
        search_orders(h, pre, post),
        is_edge(h, a, b),
        !reachable(h, b, a),
    ensures
        strongly_connected(h, z, a),
        forall|w: int| #[trigger] strongly_connected(h, w, b) ==> index_in(post, z) > index_in(post, w),
{
    let n = h.len() as int;
    assert(0 <= b < n);
    lemma_reachable_self(h, a);
    lemma_reachable_self(h, b);
    let in_s = |v: int| strongly_connected(h, v, a) || strongly_connected(h, v, b);
    let ia = index_in(pre, a);
    assert(pre.contains(a));
    let j = lemma_first_match(pre, in_s, ia);
    let d = pre[j];
    lemma_index_in(pre, j);
    assert forall|v: int| #[trigger] in_s(v) && 0 <= v < n implies index_in(pre, v) >= j && !pre.take(j).contains(v) by {
        assert(pre.contains(v));
        let i = index_in(pre, v);
        if i < j {
            assert(!in_s(pre[i]));
        }
        if pre.take(j).contains(v) {
            let k = choose|k: int| 0 <= k < j && pre.take(j)[k] == v;
            assert(!in_s(pre[k]));
        }
    }
    if strongly_connected(h, d, a) {
        assert forall|w: int| #[trigger] strongly_connected(h, w, b) implies index_in(post, d) > index_in(post, w) by {
            let p1 = choose|p: Seq<int>| #[trigger] is_walk(h, p) && p[0] == d && p.last() == a;
            let p2 = choose|p: Seq<int>| #[trigger] is_walk(h, p) && p[0] == b && p.last() == w;
            let p = p1 + p2;
            assert forall|i: int| 0 <= i < p.len() implies 0 <= #[trigger] p[i] < n by {
                if i >= p1.len() {
                    assert(p[i] == p2[i - p1.len()]);
                }
            }
            assert forall|i: int| 0 <= i < p.len() - 1 implies #[trigger] is_edge(h, p[i], p[i + 1]) by {
                if i < p1.len() - 1 {
                    assert(is_edge(h, p1[i], p1[i + 1]));
                } else if i >= p1.len() {
                    assert(is_edge(h, p2[i - p1.len()], p2[i - p1.len() + 1]));
                }
            }
            assert(is_walk(h, p));
            assert(p.last() == w);
            assert forall|i: int| 0 <= i < p.len() implies !pre.take(index_in(pre, d)).contains(#[trigger] p[i]) by {
                if i < p1.len() {
                    lemma_walk_vertex(h, p1, i);
                    assert(p[i] == p1[i]);
                    lemma_reachable_trans(h, p1[i], a, d);
                    lemma_sc_trans(h, p1[i], d, a);
                    assert(in_s(p[i]));
                } else {
                    lemma_walk_vertex(h, p2, i - p1.len());
                    assert(p[i] == p2[i - p1.len()]);
                    lemma_reachable_trans(h, p[i], w, b);
                    assert(strongly_connected(h, p[i], b));
                    assert(in_s(p[i]));
                }
            }
            assert(post.contains(d));
            assert(index_in(post, w) <= index_in(post, d));
            if w == d {
                lemma_sc_trans(h, a, d, b);
            }
            assert(post.contains(w));
            let iw = index_in(post, w);
            let id = index_in(post, d);
            assert(post[iw] == w && post[id] == d);
        }
        d
    } else {
        assert(strongly_connected(h, d, b));
        assert forall|w: int| #[trigger] strongly_connected(h, w, b) implies index_in(post, a) > index_in(post, w) by {
            lemma_reachable_trans(h, d, b, w);
            let p = choose|p: Seq<int>| #[trigger] is_walk(h, p) && p[0] == d && p.last() == w;
            assert forall|i: int| 0 <= i < p.len() implies !pre.take(index_in(pre, d)).contains(#[trigger] p[i]) by {
                lemma_walk_vertex(h, p, i);
                lemma_reachable_trans(h, p[i], w, b);
                lemma_reachable_trans(h, b, d, p[i]);
                assert(strongly_connected(h, p[i], b));
                assert(in_s(p[i]));
            }
            assert(post.contains(d));
            assert(index_in(post, w) <= index_in(post, d));
            assert(post.contains(a));
            if index_in(post, a) <= index_in(post, d) {
                if a == d {
                    assert(false);
                }
                let pa = index_in(pre, a);
                assert(pre.contains(a));
                assert(pre[pa] == a);
                assert(pa != j);
                assert(index_in(post, a) != index_in(post, d)) by {
                    let x = index_in(post, a);
                    let y = index_in(post, d);
                    assert(post[x] == a && post[y] == d);
                }
                assert(reachable(h, d, a));
                lemma_reachable_trans(h, b, d, a);
            }
        }
        a
    }
}

/// At the start of a walk of `h` that its end cannot go back on, some vertex strongly
/// connected to the start finishes after the end.
proof fn lemma_later_component(h: Seq<Seq<int>>, pre: Seq<int>, post: Seq<int>, p: Seq<int>) -> (z: int)
    requires
        adj_wf(h),
        search_orders(h, pre, post),
        is_walk(h, p),
        !reachable(h, p.last(), p[0]),
    ensures
        strongly_connected(h, z, p[0]),
        index_in(post, z) > index_in(post, p.last()),
    decreases p.len(),
{
    if p.len() == 1 {
        lemma_reachable_self(h, p[0]);
        p[0]
    } else {
        let x = p[0];
        let y = p[1];
        let q = p.drop_first();
        assert forall|i: int| 0 <= i < q.len() - 1 implies #[trigger] is_edge(h, q[i], q[i + 1]) by {
            assert(is_edge(h, p[i + 1], p[i + 1 + 1]));
        }
        assert(is_walk(h, q));
        assert(is_edge(h, p[0], p[0int + 1]));
        lemma_reachable_self(h, x);
        lemma_reachable_step(h, x, x, y);
        lemma_walk_vertex(h, q, q.len() - 1);
        if reachable(h, y, x) {
            if reachable(h, q.last(), y) {
                lemma_reachable_trans(h, q.last(), y, x);
            }
            let z = lemma_later_component(h, pre, post, q);
            lemma_sc_trans(h, z, y, x);
            z
        } else {
            let z = lemma_edge_component_later(h, pre, post, x, y);
            if reachable(h, q.last(), y) {
                assert(strongly_connected(h, q.last(), y));
            } else {
                let z2 = lemma_later_component(h, pre, post, q);
                assert(strongly_connected(h, z2, y));
            }
            z
        }
    }
}

/// A list of distinct vertices of a graph of `n` vertices that holds every one of them has
/// `n` entries.
proof fn lemma_full_order_len(s: Seq<int>, n: int)
    requires
        0 <= n,
        distinct_vertices(s, n),
        forall|v: int| 0 <= v < n ==> #[trigger] s.contains(v),
    ensures
        s.len() == n,
{
    assert(s.no_duplicates()) by {
        assert forall|i: int, j: int| 0 <= i < s.len() && 0 <= j < s.len() && i != j implies s[i] != s[j] by {
            if i < j {
                assert(s[i] != s[j]);
            } else {
                assert(s[j] != s[i]);
            }
        }
    }
    s.unique_seq_to_set();
    assert(s.to_set() =~= vstd::set_lib::set_int_range(0, n)) by {
        assert forall|v: int| s.to_set().contains(v) implies 0 <= v < n by {
            let i = choose|i: int| 0 <= i < s.len() && s[i] == v;
        }
    }
    vstd::set_lib::lemma_int_range(0, n);
}

/// A list read backwards holds the same vertices.
proof fn lemma_reverse_contains(s: Seq<int>, x: int)
    ensures
        s.reverse().contains(x) <==> s.contains(x),
{
    if s.contains(x) {
        let i = choose|i: int| 0 <= i < s.len() && s[i] == x;
        assert(s.reverse()[s.len() - 1 - i] == x);
    }
    if s.reverse().contains(x) {
        let i = choose|i: int| 0 <= i < s.reverse().len() && s.reverse()[i] == x;
        assert(s[s.len() - 1 - i] == x);
    }
}

/// The graph of keys reversed turns every edge of the graph around.
proof fn lemma_keys_reversed(adj: Seq<Seq<int>>, kadj: Seq<Seq<int>>, h: Seq<Seq<int>>)
    requires
        adj_wf(adj),
        kadj.len() == adj.len(),
        forall|u: int| 0 <= u < kadj.len() ==> #[trigger] kadj[u] == adj[u].reverse(),
        h.len() == kadj.len(),
        forall|w: int| 0 <= w < h.len() ==> #[trigger] h[w] == incoming(kadj, w, kadj.len() as int).reverse(),
    ensures
        reverses(h, adj),
        reverses(adj, h),
        adj_wf(h),
{
    let n = adj.len() as int;
    assert forall|u: int, w: int| #[trigger] is_edge(h, w, u) <==> is_edge(adj, u, w) by {
        if 0 <= w < n {
            lemma_reverse_contains(incoming(kadj, w, n), u);
            lemma_incoming_contains(kadj, w, n, u);
            if 0 <= u < n {
                lemma_reverse_contains(adj[u], w);
            }
        }
        if is_edge(adj, u, w) {
            let k = choose|k: int| 0 <= k < adj[u].len() && adj[u][k] == w;
            assert(0 <= adj[u][k] < n);
            lemma_reverse_contains(incoming(kadj, w, n), u);
            lemma_incoming_contains(kadj, w, n, u);
            lemma_reverse_contains(adj[u], w);
        }
    }
    assert forall|w: int, k: int| 0 <= w < h.len() && 0 <= k < h[w].len() implies 0 <= #[trigger] h[w][k] < h.len() by {
        let u = h[w][k];
        assert(h[w].contains(u));
        assert(is_edge(h, w, u));
        assert(is_edge(adj, u, w));
    }
}

/// Every vertex of a walk from a newly marked vertex through vertices not marked before is
/// marked after, when each newly marked vertex has all its successors marked.
proof fn lemma_walk_marked(adj: Seq<Seq<int>>, m0: Seq<bool>, m1: Seq<bool>, p: Seq<int>, i: int)
    requires
        m0.len() == adj.len(),
        m1.len() == adj.len(),
        is_walk(adj, p),
        m1[p[0]],
        forall|k: int| 0 <= k < p.len() ==> !m0[#[trigger] p[k]],
        forall|v: int, w: int| 0 <= v < adj.len() && m1[v] && !m0[v] && #[trigger] is_edge(adj, v, w) ==> m1[w],
        0 <= i < p.len(),
    ensures
        m1[p[i]],
    decreases i,
{
    if i > 0 {
        lemma_walk_marked(adj, m0, m1, p, i - 1);
        assert(is_edge(adj, p[i - 1], p[i - 1 + 1]));
        assert(!m0[p[i - 1]]);
    }
}

/// In the second pass, a search from the first unmarked vertex `r` of the reversed
/// finishing order marks exactly the vertices strongly connected to `r`.
proof fn lemma_root_component(
    adj: Seq<Seq<int>>,
    h: Seq<Seq<int>>,
    pre_s: Seq<int>,
    post_s: Seq<int>,
    postr: Seq<int>,
    t: int,
    m0: Seq<bool>,
    m1: Seq<bool>,
    r: int,
)
    requires
        adj_wf(adj),
        adj_wf(h),
        reverses(h, adj),
        search_orders(h, pre_s, post_s),
        postr == post_s.reverse(),
        0 <= t < adj.len(),
        r == postr[t],
        m0.len() == adj.len(),
        m1.len() == adj.len(),
        !m0[r],
        m1[r],
        forall|v: int| 0 <= v < adj.len() && m0[v] ==> m1[v],
        forall|v: int| 0 <= v < adj.len() ==> m0[v] || #[trigger] postr.subrange(t, adj.len() as int).contains(v),
        forall|u: int, v: int|
            0 <= u < adj.len() && 0 <= v < adj.len() && m0[u] && #[trigger] strongly_connected(adj, u, v) ==> m0[v],
        forall|v: int| 0 <= v < adj.len() && m1[v] && !m0[v] ==> #[trigger] reachable(adj, r, v),
        forall|v: int, w: int| 0 <= v < adj.len() && m1[v] && !m0[v] && #[trigger] is_edge(adj, v, w) ==> m1[w],
    ensures
        forall|v: int| 0 <= v < adj.len() ==> (m1[v] && !m0[v] <==> #[trigger] strongly_connected(adj, r, v)),
{
    let n = adj.len() as int;
    assert(reverses(adj, h));
    lemma_full_order_len(post_s, n);
    assert(0 <= r < n) by {
        assert(post_s[n - 1 - t] == r);
    }
    lemma_index_in(post_s, n - 1 - t);
    assert(post_s[n - 1 - t] == r);
    assert forall|v: int| 0 <= v < n implies (m1[v] && !m0[v] <==> #[trigger] strongly_connected(adj, r, v)) by {
        if strongly_connected(adj, r, v) {
            let p = choose|p: Seq<int>| #[trigger] is_walk(adj, p) && p[0] == r && p.last() == v;
            assert forall|k: int| 0 <= k < p.len() implies !m0[#[trigger] p[k]] by {
                lemma_walk_vertex(adj, p, k);
                lemma_reachable_trans(adj, p[k], v, r);
                if m0[p[k]] {
                    assert(strongly_connected(adj, p[k], r));
                }
            }
            lemma_walk_marked(adj, m0, m1, p, p.len() - 1);
            if m0[v] {
                assert(strongly_connected(adj, v, r));
            }
        }
        if m1[v] && !m0[v] {
            assert(reachable(adj, r, v));
            if !reachable(adj, v, r) {
                lemma_reachable_reversed(adj, h, r, v);
                if reachable(h, r, v) {
                    lemma_reachable_reversed(h, adj, r, v);
                }
                let p = choose|p: Seq<int>| #[trigger] is_walk(h, p) && p[0] == v && p.last() == r;
                let z = lemma_later_component(h, pre_s, post_s, p);
                assert(index_in(post_s, z) > n - 1 - t);
                assert(0 <= z < n) by {
                    let q = choose|q: Seq<int>| #[trigger] is_walk(h, q) && q[0] == z && q.last() == v;
                }
                assert(post_s.contains(z));
                let iz = index_in(post_s, z);
                assert(post_s[iz] == z);
                assert(!postr.subrange(t, n).contains(z)) by {
                    if postr.subrange(t, n).contains(z) {
                        let k = choose|k: int| 0 <= k < n - t && postr.subrange(t, n)[k] == z;
                        assert(post_s[n - 1 - (t + k)] == z);
                        lemma_index_in(post_s, n - 1 - (t + k));
                    }
                }
                assert(m0[z]);
                lemma_reachable_reversed(h, adj, z, v);
                lemma_reachable_reversed(h, adj, v, z);
                assert(strongly_connected(adj, z, v));
            }
        }
    }
}

/// The component numbers of the vertices of a graph.
pub struct KosarajuSCC {
    scc: Vec<usize>,
    count: usize,
    adj: Ghost<Seq<Seq<int>>>,
}

impl KosarajuSCC {
    /// The component number of each vertex.
    pub closed spec fn ids(&self) -> Seq<usize> {
        self.scc@
    }

    /// The number of components.
    pub closed spec fn spec_count(&self) -> int {
        self.count as int
    }

    /// The adjacency lists of the graph split.
    pub closed spec fn spec_adj(&self) -> Seq<Seq<int>> {
        self.adj@
    }

    /// The component numbers tell the strongly connected components of the graph apart:
    /// two vertices share a number exactly when each reaches the other.
    pub closed spec fn wf(&self) -> bool {
        &&& self.ids().len() == self.spec_adj().len()
        &&& forall|u: int, v: int|
            0 <= u < self.spec_adj().len() && 0 <= v < self.spec_adj().len() ==> (self.ids()[u] == self.ids()[v]
                <==> #[trigger] strongly_connected(self.spec_adj(), u, v))
    }

    /// The component number of `v`, or `None` for a key that is not a vertex of the graph.
    pub open spec fn spec_id(&self, v: VertexIndex) -> Option<usize> {
        if v.spec_idx() < self.ids().len() {
            Some(self.ids()[v.spec_idx()])
        } else {
            None
        }
    }

    /// Marks every vertex reachable from `src` that was not marked yet and gives it the
    /// component number `count`.
    fn dfs<V, E>(
        graph: &LinkedGraph<V, E>,
        marked: &mut Vec<bool>,
        count: usize,
        scc: &mut Vec<usize>,
        src: usize,
        Ghost(root): Ghost<int>,
    )
        requires
            graph.wf(),
            old(marked)@.len() == graph.adj().len(),
            old(scc)@.len() == graph.adj().len(),
            src < graph.adj().len(),
            !old(marked)@[src as int],
            0 <= root < graph.adj().len(),
            reachable(graph.adj(), root, src as int),
        ensures
            final(marked)@.len() == graph.adj().len(),
            final(scc)@.len() == graph.adj().len(),
            final(marked)@[src as int],
            count_unmarked(final(marked)@) < count_unmarked(old(marked)@),
            forall|v: int| 0 <= v < graph.adj().len() && old(marked)@[v] ==> #[trigger] final(marked)@[v],
            forall|v: int| 0 <= v < graph.adj().len() && old(marked)@[v] ==> #[trigger] final(scc)@[v] == old(scc)@[v],
            forall|v: int|
                0 <= v < graph.adj().len() && #[trigger] final(marked)@[v] && !old(marked)@[v] ==> final(scc)@[v] == count
                    && reachable(graph.adj(), root, v),
            forall|v: int, w: int|
                0 <= v < graph.adj().len() && final(marked)@[v] && !old(marked)@[v] && #[trigger] is_edge(graph.adj(), v, w)
                    ==> final(marked)@[w],
        decreases count_unmarked(old(marked)@),
    {
        let ghost adj = graph.adj();
        let ghost entry = marked@;
        let ghost scc0 = scc@;
        proof {
            lemma_mark_decreases(marked@, src as int);
            graph.lemma_adj_stored();
        }
        marked.set(src, true);
        scc.set(src, count);
        let outs = &graph.vertexs[src].outs;
        let mut k: usize = 0;
        while k < outs.len()
            invariant
                graph.wf(),
                adj == graph.adj(),
                adj_wf(adj),
                src < adj.len(),
                0 <= root < adj.len(),
                reachable(adj, root, src as int),
                *outs == graph.vertexs@[src as int].outs,
                adj[src as int] == targets(outs@),
                k <= outs@.len(),
                marked@.len() == adj.len(),
                scc@.len() == adj.len(),
                marked@[src as int],
                entry == old(marked)@,
                scc0 == old(scc)@,
                !entry[src as int],
                count_unmarked(marked@) < count_unmarked(entry),
                forall|v: int| 0 <= v < adj.len() && entry[v] ==> #[trigger] marked@[v],
                forall|v: int| 0 <= v < adj.len() && entry[v] ==> #[trigger] scc@[v] == scc0[v],
                forall|v: int| 0 <= v < adj.len() && #[trigger] marked@[v] && !entry[v] ==> scc@[v] == count && reachable(adj, root, v),
                forall|j: int| 0 <= j < k ==> marked@[#[trigger] adj[src as int][j]],
                forall|v: int, w: int|
                    0 <= v < adj.len() && v != src && marked@[v] && !entry[v] && #[trigger] is_edge(adj, v, w) ==> marked@[w],
            decreases outs@.len() - k,
        {
            let dst = outs[k].to.idx;
            proof {
                assert(dst == adj[src as int][k as int]);
                assert(adj[src as int].contains(dst as int));
                assert(is_edge(adj, src as int, dst as int));
                lemma_reachable_step(adj, root, src as int, dst as int);
            }
            if !marked[dst] {
                let ghost before = marked@;
                let ghost scc1 = scc@;
                Self::dfs(graph, marked, count, scc, dst, Ghost(root));
                proof {
                    lemma_count_superset(before, marked@);
                    assert forall|v: int| 0 <= v < adj.len() && #[trigger] marked@[v] && !entry[v] implies scc@[v] == count && reachable(adj, root, v) by {
                        if before[v] {
                            assert(scc@[v] == scc1[v]);
                        }
                    }
                    assert forall|v: int, w: int|
                        0 <= v < adj.len() && v != src && marked@[v] && !entry[v] && #[trigger] is_edge(adj, v, w) implies marked@[w] by {
                        if before[v] {
                            assert(before[w]);
                        }
                    }
                }
            }
            proof {
                assert forall|j: int| 0 <= j < k + 1 implies marked@[#[trigger] adj[src as int][j]] by {
                    if j == k {
                        assert(adj[src as int][j] == dst);
                    }
                }
            }
            k = k + 1;
        }
        proof {
            assert forall|v: int, w: int|
                0 <= v < adj.len() && marked@[v] && !entry[v] && #[trigger] is_edge(adj, v, w) implies marked@[w] by {
                if v == src {
                    let jj = choose|jj: int| 0 <= jj < adj[src as int].len() && adj[src as int][jj] == w;
                    assert(marked@[adj[src as int][jj]]);
                }
            }
        }
    }

    /// Splits the vertices of `graph` into strongly connected components: a depth-first
    /// search of the reversed graph gives an order, and searches of `graph` in that order
    /// each collect one component.
    pub fn new<V, E>(graph: &LinkedGraph<V, E>) -> (r: Self)
        requires
            graph.wf(),
        ensures
            r.spec_adj() == graph.adj(),
            r.ids().len() == graph.adj().len(),
            0 <= r.spec_count() <= graph.adj().len(),
            forall|v: int| 0 <= v < graph.adj().len() ==> #[trigger] r.ids()[v] < r.spec_count(),
            components_led(graph.adj(), r.ids(), r.spec_count()),
            forall|u: int, v: int|
                0 <= u < graph.adj().len() && 0 <= v < graph.adj().len() ==> (r.ids()[u] == r.ids()[v]
                    <==> #[trigger] strongly_connected(graph.adj(), u, v)),
            r.wf(),
    {
        let ghost adj = graph.adj();
        let keys = graph.keys();
        let reversed = keys.reversed();
        let order = DepthFirstOrder::new(&reversed);
        let mut rpo = order.reverse_post();
        let n = graph.vertex_num();
        proof {
            graph.lemma_models();
            reversed.lemma_models();
        }
        let ghost h = reversed.adj();
        let ghost pre_s = order.spec_pre();
        let ghost post_s = order.spec_post();
        let ghost postr = post_s.reverse();
        let ghost mut t: int = 0;
        proof {
            lemma_keys_reversed(adj, keys.adj(), h);
            assert(search_orders(h, pre_s, post_s));
            lemma_full_order_len(post_s, n as int);
            assert(rpo.remaining() =~= postr.subrange(0, n as int));
        }
        let (mut marked, mut scc) = fresh_marks(n);
        let mut count: usize = 0;
        proof {
            let post = order.spec_post();
            assert forall|v: int| 0 <= v < n implies #[trigger] rpo.remaining().contains(v) by {
                assert(post.contains(v));
                let i = choose|i: int| 0 <= i < post.len() && post[i] == v;
                assert(rpo.remaining()[post.len() - 1 - i] == v);
            }
            assert forall|i: int| 0 <= i < rpo.remaining().len() implies 0 <= #[trigger] rpo.remaining()[i] < n by {
                assert(rpo.remaining()[i] == post[post.len() - 1 - i]);
            }
            assert(count_unmarked(marked@) == n) by {
                lemma_all_unmarked(marked@);
            }
        }
        loop
            invariant
                graph.wf(),
                adj == graph.adj(),
                adj_wf(adj),
                adj_wf(h),
                n == adj.len(),
                reverses(h, adj),
                search_orders(h, pre_s, post_s),
                postr == post_s.reverse(),
                post_s.len() == n,
                0 <= t <= n,
                rpo.remaining() == postr.subrange(t, n as int),
                reversed.values().len() == n,
                forall|u: int| 0 <= u < n ==> (#[trigger] reversed.values()[u]).spec_idx() == u,
                forall|i: int| 0 <= i < rpo.remaining().len() ==> 0 <= #[trigger] rpo.remaining()[i] < n,
                forall|v: int| 0 <= v < n ==> marked@[v] || #[trigger] rpo.remaining().contains(v),
                marked@.len() == n,
                scc@.len() == n,
                count + count_unmarked(marked@) <= n,
                forall|v: int| 0 <= v < n && #[trigger] marked@[v] ==> scc@[v] < count,
                forall|c: int| 0 <= c < count ==> #[trigger] has_leader_among(adj, scc@, marked@, c),
                forall|u: int, v: int|
                    0 <= u < n && 0 <= v < n && marked@[u] && #[trigger] strongly_connected(adj, u, v) ==> marked@[v],
                forall|u: int, v: int|
                    0 <= u < n && 0 <= v < n && marked@[u] && marked@[v] ==> (scc@[u] == scc@[v]
                        <==> #[trigger] strongly_connected(adj, u, v)),
            ensures
                marked@.len() == n,
                scc@.len() == n,
                count <= n,
                forall|v: int| 0 <= v < n ==> #[trigger] scc@[v] < count,
                components_led(adj, scc@, count as int),
                forall|u: int, v: int|
                    0 <= u < n && 0 <= v < n ==> (scc@[u] == scc@[v] <==> #[trigger] strongly_connected(adj, u, v)),
            decreases rpo.remaining().len(),
        {
            let ghost rem = rpo.remaining();
            let s = rpo.next();
            if s.is_none() {
                proof {
                    assert forall|v: int| 0 <= v < n implies #[trigger] marked@[v] by {
                        if !marked@[v] {
                            assert(rem.contains(v));
                        }
                    }
                    assert forall|v: int| 0 <= v < n implies #[trigger] scc@[v] < count by {
                        assert(marked@[v]);
                    }
                    assert forall|c: int| 0 <= c < count implies #[trigger] has_leader(adj, scc@, c) by {
                        assert(has_leader_among(adj, scc@, marked@, c));
                        let l = choose|l: int| #[trigger] leads_among(adj, scc@, marked@, c, l);
                        assert(leads(adj, scc@, c, l));
                    }
                    assert forall|u: int, v: int| 0 <= u < n && 0 <= v < n implies (scc@[u] == scc@[v]
                        <==> #[trigger] strongly_connected(adj, u, v)) by {
                        assert(marked@[u] && marked@[v]);
                    }
                }
                break;
            }
            if let Some(s) = s {
                proof {
                    assert(rem[0] == s.spec_idx());
                }
                match reversed.get_vertex(&s) {
                    Some(src) => {
                        let ghost scc_before = scc@;
                        let ghost marked_before = marked@;
                        if src.idx < n && !marked[src.idx] {
                            let ghost r = src.spec_idx();
                            proof {
                                lemma_reachable_self(adj, r);
                                assert(r == s.spec_idx());
                            }
                            Self::dfs(graph, &mut marked, count, &mut scc, src.idx, Ghost(src.idx as int));
                            proof {
                                lemma_count_superset(marked_before, marked@);
                                lemma_root_component(adj, h, pre_s, post_s, postr, t, marked_before, marked@, r);
                                let l = r;
                                assert(scc@[l] == count);
                                assert forall|c: int| 0 <= c < count + 1 implies #[trigger] has_leader_among(adj, scc@, marked@, c) by {
                                    if c == count {
                                        assert forall|v: int| 0 <= v < adj.len() && marked@[v] && scc@[v] == c implies #[trigger] reachable(adj, l, v) by {
                                            if marked_before[v] {
                                                assert(scc_before[v] < count);
                                            }
                                        }
                                        assert(leads_among(adj, scc@, marked@, c, l));
                                    } else {
                                        assert(has_leader_among(adj, scc_before, marked_before, c));
                                        let l0 = choose|l0: int| #[trigger] leads_among(adj, scc_before, marked_before, c, l0);
                                        assert forall|v: int| 0 <= v < adj.len() && marked@[v] && scc@[v] == c implies #[trigger] reachable(adj, l0, v) by {
                                            if !marked_before[v] {
                                                assert(scc@[v] == count);
                                            }
                                        }
                                        assert(leads_among(adj, scc@, marked@, c, l0));
                                    }
                                }
                                assert forall|u: int, v: int|
                                    0 <= u < n && 0 <= v < n && marked@[u] && #[trigger] strongly_connected(adj, u, v) implies marked@[v] by {
                                    if !marked_before[u] {
                                        lemma_sc_trans(adj, r, u, v);
                                    }
                                }
                                assert forall|u: int, v: int|
                                    0 <= u < n && 0 <= v < n && marked@[u] && marked@[v] implies (scc@[u] == scc@[v]
                                        <==> #[trigger] strongly_connected(adj, u, v)) by {
                                    if marked_before[u] && marked_before[v] {
                                        assert(scc@[u] == scc_before[u] && scc@[v] == scc_before[v]);
                                    } else if !marked_before[u] && !marked_before[v] {
                                        assert(strongly_connected(adj, r, u) && strongly_connected(adj, r, v));
                                        lemma_sc_trans(adj, u, r, v);
                                    } else if !marked_before[u] {
                                        assert(scc@[u] == count && scc@[v] == scc_before[v]);
                                        if strongly_connected(adj, u, v) {
                                            assert(strongly_connected(adj, v, u));
                                        }
                                    } else {
                                        assert(scc@[v] == count && scc@[u] == scc_before[u]);
                                    }
                                }
                            }
                            count = count + 1;
                        }
                    },
                    None => {},
                }
            }
            proof {
                assert(rpo.remaining() =~= postr.subrange(t + 1, n as int));
                t = t + 1;
                assert forall|v: int| 0 <= v < n implies marked@[v] || #[trigger] rpo.remaining().contains(v) by {
                    if !marked@[v] {
                        assert(rem.contains(v));
                        let i = choose|i: int| 0 <= i < rem.len() && rem[i] == v;
                        if i > 0 {
                            assert(rpo.remaining() == rem.drop_first());
                            assert(rpo.remaining()[i - 1] == v);
                        }
                    }
                }
            }
        }
        KosarajuSCC { scc, count, adj: Ghost(adj) }
    }

    /// Whether `lhs` and `rhs` have the same component number (two keys that are not
    /// vertices of the graph count as alike).
    pub fn is_strongly_connected(&self, lhs: &VertexIndex, rhs: &VertexIndex) -> (b: bool)
        ensures
            b == (self.spec_id(*lhs) == self.spec_id(*rhs)),
            self.wf() && lhs.spec_idx() < self.spec_adj().len() && rhs.spec_idx() < self.spec_adj().len() ==> (b
                == strongly_connected(self.spec_adj(), lhs.spec_idx() as int, rhs.spec_idx() as int)),
    {
        let l = self.id(lhs);
        let r = self.id(rhs);
        match (l, r) {
            (Some(a), Some(b)) => a == b,
            (None, None) => true,
            _ => false,
        }
    }

    /// The component number of `v`, or `None` for a key that is not a vertex of the graph.
    pub fn id(&self, v: &VertexIndex) -> (r: Option<usize>)
        ensures
            r == self.spec_id(*v),
    {
        if v.idx < self.scc.len() {
            Some(self.scc[v.idx])
        } else {
            None
        }
    }

    /// The number of components.
    pub fn len(&self) -> (n: usize)
        ensures
            n == self.spec_count(),
    {
        self.count
    }

    /// Whether there is no component (the graph has no vertex).
    pub fn is_empty(&self) -> (b: bool)
        ensures
            b == (self.spec_count() == 0),
    {
        self.count == 0
    }
}

/// A sequence of `false` entries counts every entry as unmarked.
proof fn lemma_all_unmarked(s: Seq<bool>)
    requires
        forall|i: int| 0 <= i < s.len() ==> !#[trigger] s[i],
    ensures
        count_unmarked(s) == s.len(),
    decreases s.len(),
{
    if s.len() > 0 {
        lemma_all_unmarked(s.drop_last());
    }
}

impl<V, E> LinkedGraph<V, E> {
    /// The strongly connected components of the graph.
    pub fn scc(&self) -> (r: KosarajuSCC)
        requires
            self.wf(),
        ensures
            r.spec_adj() == self.adj(),
            r.ids().len() == self.adj().len(),
            0 <= r.spec_count() <= self.adj().len(),
            forall|v: int| 0 <= v < self.adj().len() ==> #[trigger] r.ids()[v] < r.spec_count(),
            components_led(self.adj(), r.ids(), r.spec_count()),
            forall|u: int, v: int|
                0 <= u < self.adj().len() && 0 <= v < self.adj().len() ==> (r.ids()[u] == r.ids()[v]
                    <==> #[trigger] strongly_connected(self.adj(), u, v)),
            r.wf(),
    {
        KosarajuSCC::new(self)
    }
}

} // verus!
