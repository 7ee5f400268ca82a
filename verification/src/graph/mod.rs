//! Directed graphs stored as adjacency lists, with depth-first and breadth-first searches,
//! cycle detection, depth-first orders, topological order and strongly connected components.

pub mod adjacency_list;
pub mod path;
pub mod cycle;
pub mod order;
pub mod scc;

use vstd::prelude::*;

verus! {

/// A mark left on a visited vertex.
#[derive(Debug, Default)]
pub struct Marked;

/// An edge or vertex value that carries nothing.
#[derive(Debug, Default, Copy, Clone)]
pub struct Empty;

/// Whether `(u, v)` is an edge of the graph whose adjacency lists are `adj`.
pub open spec fn is_edge(adj: Seq<Seq<int>>, u: int, v: int) -> bool {
    0 <= u < adj.len() && adj[u].contains(v)
}

/// Whether `p` is a non-empty walk of vertices of the graph, each step along an edge.
pub open spec fn is_walk(adj: Seq<Seq<int>>, p: Seq<int>) -> bool {
    &&& p.len() > 0
    &&& forall|i: int| 0 <= i < p.len() ==> 0 <= #[trigger] p[i] < adj.len()
    &&& forall|i: int| 0 <= i < p.len() - 1 ==> #[trigger] is_edge(adj, p[i], p[i + 1])
}

/// Whether there is a walk from `s` to `t`.
pub open spec fn reachable(adj: Seq<Seq<int>>, s: int, t: int) -> bool {
    exists|p: Seq<int>| #[trigger] is_walk(adj, p) && p[0] == s && p.last() == t
}

/// Every edge leads to a vertex of the graph.
pub open spec fn adj_wf(adj: Seq<Seq<int>>) -> bool {
    forall|u: int, k: int| 0 <= u < adj.len() && 0 <= k < adj[u].len() ==> 0 <= #[trigger] adj[u][k] < adj.len()
}

/// A single vertex is a walk from itself to itself.
pub proof fn lemma_reachable_self(adj: Seq<Seq<int>>, s: int)
    requires
        0 <= s < adj.len(),
    ensures
        reachable(adj, s, s),
{
    let p = seq![s];
    assert(is_walk(adj, p));
}

/// Extending a walk by an edge gives a walk.
pub proof fn lemma_reachable_step(adj: Seq<Seq<int>>, s: int, u: int, v: int)
    requires
        reachable(adj, s, u),
        is_edge(adj, u, v),
        0 <= v < adj.len(),
    ensures
        reachable(adj, s, v),
{
    let p = choose|p: Seq<int>| #[trigger] is_walk(adj, p) && p[0] == s && p.last() == u;
    let q = p.push(v);
    assert forall|i: int| 0 <= i < q.len() - 1 implies #[trigger] is_edge(adj, q[i], q[i + 1]) by {
        if i < p.len() - 1 {
            assert(q[i] == p[i] && q[i + 1] == p[i + 1]);
        } else {
            assert(q[i] == u && q[i + 1] == v);
        }
    }
    assert forall|i: int| 0 <= i < q.len() implies 0 <= #[trigger] q[i] < adj.len() by {
        if i < p.len() {
            assert(q[i] == p[i]);
        }
    }
    assert(is_walk(adj, q));
}

/// A set of vertices that holds `s` and every successor of its members holds every vertex
/// reachable from `s`.
pub proof fn lemma_closed_holds_reachable(adj: Seq<Seq<int>>, marked: Seq<bool>, s: int, t: int)
    requires
        marked.len() == adj.len(),
        0 <= s < adj.len(),
        marked[s],
        forall|u: int, v: int| 0 <= u < adj.len() && marked[u] && #[trigger] is_edge(adj, u, v) ==> 0 <= v < adj.len() && marked[v],
        reachable(adj, s, t),
    ensures
        0 <= t < adj.len() && marked[t],
{
    let p = choose|p: Seq<int>| #[trigger] is_walk(adj, p) && p[0] == s && p.last() == t;
    lemma_walk_stays_marked(adj, marked, p, p.len() - 1);
}

proof fn lemma_walk_stays_marked(adj: Seq<Seq<int>>, marked: Seq<bool>, p: Seq<int>, i: int)
    requires
        marked.len() == adj.len(),
        is_walk(adj, p),
        0 <= i < p.len(),
        marked[p[0]],
        forall|u: int, v: int| 0 <= u < adj.len() && marked[u] && #[trigger] is_edge(adj, u, v) ==> 0 <= v < adj.len() && marked[v],
    ensures
        0 <= p[i] < adj.len() && marked[p[i]],
    decreases i,
{
    if i > 0 {
        let j = i - 1;
        lemma_walk_stays_marked(adj, marked, p, j);
        assert(is_edge(adj, p[j], p[j + 1]));
        assert(j + 1 == i);
    }
}

/// Number of `false` entries of a sequence of marks.
pub open spec fn count_unmarked(s: Seq<bool>) -> nat
    decreases s.len(),
{
    if s.len() == 0 {
        0
    } else {
        count_unmarked(s.drop_last()) + if s.last() {
            0nat
        } else {
            1nat
        }
    }
}

/// Marking an unmarked entry lowers the count of unmarked entries by one.
pub proof fn lemma_mark_decreases(s: Seq<bool>, i: int)
    requires
        0 <= i < s.len(),
        !s[i],
    ensures
        count_unmarked(s.update(i, true)) + 1 == count_unmarked(s),
    decreases s.len(),
{
    let t = s.update(i, true);
    if i == s.len() - 1 {
        assert(t.drop_last() =~= s.drop_last());
    } else {
        assert(t.drop_last() =~= s.drop_last().update(i, true));
        lemma_mark_decreases(s.drop_last(), i);
    }
}

/// Marking an entry never raises the count of unmarked entries.
pub proof fn lemma_mark_monotone(s: Seq<bool>, i: int)
    requires
        0 <= i < s.len(),
    ensures
        count_unmarked(s.update(i, true)) <= count_unmarked(s),
{
    if !s[i] {
        lemma_mark_decreases(s, i);
    } else {
        assert(s.update(i, true) =~= s);
    }
}

/// Whether the graph has no cycle: no walk of two or more vertices ends where it starts.
pub open spec fn acyclic(adj: Seq<Seq<int>>) -> bool {
    forall|p: Seq<int>| #[trigger] is_walk(adj, p) && p.len() >= 2 ==> p[0] != p.last()
}

/// Whether `p` is a cycle: a walk of two or more vertices that ends where it starts.
pub open spec fn is_cycle(adj: Seq<Seq<int>>, p: Seq<int>) -> bool {
    is_walk(adj, p) && p.len() >= 2 && p[0] == p.last()
}

/// A ranking of the vertices that drops along every edge rules out cycles.
pub proof fn lemma_ranking_acyclic(adj: Seq<Seq<int>>, rank: Seq<int>)
    requires
        rank.len() == adj.len(),
        forall|u: int, v: int| #[trigger] is_edge(adj, u, v) ==> 0 <= v < adj.len() && rank[v] < rank[u],
    ensures
        acyclic(adj),
{
    assert forall|p: Seq<int>| #[trigger] is_walk(adj, p) && p.len() >= 2 implies p[0] != p.last() by {
        lemma_rank_drops(adj, rank, p, p.len() - 1);
    }
}

proof fn lemma_rank_drops(adj: Seq<Seq<int>>, rank: Seq<int>, p: Seq<int>, i: int)
    requires
        rank.len() == adj.len(),
        forall|u: int, v: int| #[trigger] is_edge(adj, u, v) ==> 0 <= v < adj.len() && rank[v] < rank[u],
        is_walk(adj, p),
        1 <= i < p.len(),
    ensures
        rank[p[i]] < rank[p[0]],
    decreases i,
{
    let j = i - 1;
    assert(is_edge(adj, p[j], p[j + 1]));
    if j > 0 {
        lemma_rank_drops(adj, rank, p, j);
    }
}

/// Marking more entries never raises the count of unmarked entries.
pub proof fn lemma_count_superset(s: Seq<bool>, t: Seq<bool>)
    requires
        s.len() == t.len(),
        forall|i: int| 0 <= i < s.len() && s[i] ==> t[i],
    ensures
        count_unmarked(t) <= count_unmarked(s),
    decreases s.len(),
{
    if s.len() > 0 {
        lemma_count_superset(s.drop_last(), t.drop_last());
    }
}

/// The marked vertices other than `root` each record, in `edge_to`, a marked predecessor
/// along an edge, at a strictly smaller depth `d`.
pub open spec fn chain_ok(adj: Seq<Seq<int>>, marked: Seq<bool>, edge_to: Seq<usize>, d: Seq<nat>, root: int) -> bool {
    &&& marked.len() == adj.len()
    &&& edge_to.len() == adj.len()
    &&& d.len() == adj.len()
    &&& forall|v: int|
        0 <= v < adj.len() && marked[v] && v != root ==> {
            &&& 0 <= #[trigger] edge_to[v] < adj.len()
            &&& marked[edge_to[v] as int]
            &&& is_edge(adj, edge_to[v] as int, v)
            &&& d[edge_to[v] as int] < d[v]
        }
}

/// Every marked vertex is reachable from `root` by following the recorded predecessors.
pub proof fn lemma_chain_reachable(adj: Seq<Seq<int>>, marked: Seq<bool>, edge_to: Seq<usize>, d: Seq<nat>, root: int, v: int)
    requires
        chain_ok(adj, marked, edge_to, d, root),
        0 <= root < adj.len(),
        0 <= v < adj.len(),
        marked[v],
    ensures
        reachable(adj, root, v),
    decreases d[v],
{
    if v == root {
        lemma_reachable_self(adj, root);
    } else {
        let u = edge_to[v] as int;
        lemma_chain_reachable(adj, marked, edge_to, d, root, u);
        lemma_reachable_step(adj, root, u, v);
    }
}

/// Reachability is transitive: walks join end to end.
pub proof fn lemma_reachable_trans(adj: Seq<Seq<int>>, a: int, b: int, c: int)
    requires
        reachable(adj, a, b),
        reachable(adj, b, c),
    ensures
        reachable(adj, a, c),
{
    let p = choose|p: Seq<int>| #[trigger] is_walk(adj, p) && p[0] == a && p.last() == b;
    let q = choose|q: Seq<int>| #[trigger] is_walk(adj, q) && q[0] == b && q.last() == c;
    let w = p + q.drop_first();
    assert forall|i: int| 0 <= i < w.len() implies 0 <= #[trigger] w[i] < adj.len() by {
        if i >= p.len() {
            assert(w[i] == q[i - p.len() + 1]);
        }
    }
    assert forall|i: int| 0 <= i < w.len() - 1 implies #[trigger] is_edge(adj, w[i], w[i + 1]) by {
        if i < p.len() - 1 {
            assert(w[i] == p[i] && w[i + 1] == p[i + 1]);
        } else if i == p.len() - 1 {
            assert(w[i] == b && w[i + 1] == q[1]);
            assert(is_edge(adj, q[0], q[1]));
        } else {
            assert(w[i] == q[i - p.len() + 1] && w[i + 1] == q[i - p.len() + 2]);
            assert(is_edge(adj, q[i - p.len() + 1], q[i - p.len() + 1 + 1]));
        }
    }
    if q.len() == 1 {
        assert(w =~= p);
    } else {
        assert(w.last() == q.last());
    }
    assert(is_walk(adj, w));
}

/// Whether `u` and `v` reach each other: they lie in one strongly connected component.
pub open spec fn strongly_connected(adj: Seq<Seq<int>>, u: int, v: int) -> bool {
    reachable(adj, u, v) && reachable(adj, v, u)
}

/// Whether `radj` has the vertices of `adj` with every edge turned around.
pub open spec fn reverses(radj: Seq<Seq<int>>, adj: Seq<Seq<int>>) -> bool {
    &&& radj.len() == adj.len()
    &&& forall|u: int, w: int| #[trigger] is_edge(radj, w, u) <==> is_edge(adj, u, w)
}

/// A walk read backwards is a walk of the reversed graph.
pub proof fn lemma_reachable_reversed(adj: Seq<Seq<int>>, radj: Seq<Seq<int>>, u: int, v: int)
    requires
        reverses(radj, adj),
        reachable(adj, u, v),
    ensures
        reachable(radj, v, u),
{
    let p = choose|p: Seq<int>| #[trigger] is_walk(adj, p) && p[0] == u && p.last() == v;
    let q = p.reverse();
    assert forall|i: int| 0 <= i < q.len() implies 0 <= #[trigger] q[i] < radj.len() by {
        assert(q[i] == p[p.len() - 1 - i]);
    }
    assert forall|i: int| 0 <= i < q.len() - 1 implies #[trigger] is_edge(radj, q[i], q[i + 1]) by {
        let j = p.len() - 2 - i;
        assert(q[i] == p[j + 1] && q[i + 1] == p[j]);
        assert(is_edge(adj, p[j], p[j + 1]));
    }
    assert(is_walk(radj, q));
}

} // verus!
