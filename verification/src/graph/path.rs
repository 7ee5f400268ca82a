//! Paths found by depth-first and breadth-first search from one vertex.

use vstd::prelude::*;
use super::adjacency_list::{LinkedGraph, VertexIndex, targets};
use super::{
    is_edge, is_walk, reachable, adj_wf, chain_ok, count_unmarked, lemma_mark_decreases, lemma_count_superset,
    lemma_chain_reachable, lemma_closed_holds_reachable, lemma_reachable_self, lemma_reachable_step,
};

verus! {

/// The vertex positions of a list of keys.
pub open spec fn positions(s: Seq<VertexIndex>) -> Seq<int> {
    s.map_values(|v: VertexIndex| v.idx as int)
}

/// The positions of a list of vertex positions, as integers.
pub open spec fn as_ints(s: Seq<usize>) -> Seq<int> {
    s.map_values(|x: usize| x as int)
}

/// Whether the vertex at `j` in the visited list `p` has a target not yet visited.
pub open spec fn has_unvisited(adj: Seq<Seq<int>>, p: Seq<int>, j: int) -> bool {
    exists|m: int| 0 <= m < adj[p[j]].len() && !p.contains(#[trigger] adj[p[j]][m])
}

/// Whether `v` is the first target, in the order of the adjacency list, of the vertex at
/// `j` in the visited list `p` that is not yet visited.
pub open spec fn first_unvisited(adj: Seq<Seq<int>>, p: Seq<int>, j: int, v: int) -> bool {
    &&& !p.contains(v)
    &&& exists|m: int|
        0 <= m < adj[p[j]].len() && adj[p[j]][m] == v && forall|m2: int| 0 <= m2 < m ==> p.contains(#[trigger] adj[p[j]][m2])
}

/// Breadth first: after the vertices `p`, the next one visited is the first unvisited
/// target of the earliest vertex of `p` that has one.
pub open spec fn bfs_next(adj: Seq<Seq<int>>, p: Seq<int>, v: int) -> bool {
    exists|j: int|
        0 <= j < p.len() && #[trigger] first_unvisited(adj, p, j, v) && forall|i: int| 0 <= i < j ==> !#[trigger] has_unvisited(adj, p, i)
}

/// Depth first: after the vertices `p`, the next one visited is the first unvisited target
/// of the latest vertex of `p` that has one.
pub open spec fn dfs_next(adj: Seq<Seq<int>>, p: Seq<int>, v: int) -> bool {
    exists|j: int|
        0 <= j < p.len() && #[trigger] first_unvisited(adj, p, j, v) && forall|i: int| j < i < p.len() ==> !#[trigger] has_unvisited(adj, p, i)
}

/// Every vertex of `order` after the first comes in breadth-first order.
pub open spec fn bfs_visit_order(adj: Seq<Seq<int>>, order: Seq<int>) -> bool {
    forall|k: int| 1 <= k < order.len() ==> #[trigger] bfs_next(adj, order.take(k), order[k])
}

/// Every vertex of `order` after the first comes in depth-first order.
pub open spec fn dfs_visit_order(adj: Seq<Seq<int>>, order: Seq<int>) -> bool {
    forall|k: int| 1 <= k < order.len() ==> #[trigger] dfs_next(adj, order.take(k), order[k])
}

/// A path of vertices, handed out from its first vertex to its last.
pub struct Path {
    /// The vertices, the last one first.
    pub stack: Vec<VertexIndex>,
}

impl Path {
    /// The vertices still to be handed out, in order.
    pub open spec fn vertices(&self) -> Seq<int> {
        positions(self.stack@).reverse()
    }

    /// An empty path.
    pub fn new() -> (p: Self)
        ensures
            p.vertices() == Seq::<int>::empty(),
    {
        let p = Path { stack: Vec::new() };
        assert(positions(p.stack@) =~= Seq::<int>::empty());
        assert(p.vertices() =~= Seq::<int>::empty());
        p
    }

    /// Returns the next vertex of the path, or `None` at its end.
    pub fn next(&mut self) -> (r: Option<VertexIndex>)
        ensures
            old(self).vertices().len() == 0 ==> r is None && final(self).vertices() == old(self).vertices(),
            old(self).vertices().len() > 0 ==> (r matches Some(v) && v.spec_idx() == old(self).vertices()[0]
                && final(self).vertices() == old(self).vertices().drop_first()),
    {
        let r = self.stack.pop();
        proof {
            if old(self).stack@.len() > 0 {
                let x = r->0;
                assert(old(self).stack@ =~= self.stack@.push(x));
                assert(positions(old(self).stack@) =~= positions(self.stack@).push(x.idx as int));
                assert(positions(old(self).stack@).reverse() =~= seq![x.idx as int] + positions(self.stack@).reverse());
                assert(positions(self.stack@).reverse() =~= positions(old(self).stack@).reverse().drop_first());
            }
        }
        r
    }

    /// Number of vertices still to be handed out.
    pub fn len(&self) -> (n: usize)
        ensures
            n == self.vertices().len(),
    {
        self.stack.len()
    }

    /// A copy of the path.
    pub fn duplicate(&self) -> (p: Self)
        ensures
            p.vertices() == self.vertices(),
    {
        let mut stack = Vec::new();
        let mut i: usize = 0;
        while i < self.stack.len()
            invariant
                i <= self.stack@.len(),
                stack@ == self.stack@.take(i as int),
            decreases self.stack@.len() - i,
        {
            stack.push(self.stack[i]);
            proof {
                assert(stack@ =~= self.stack@.take(i + 1));
            }
            i = i + 1;
        }
        assert(stack@ =~= self.stack@);
        Path { stack }
    }

    /// The walk from `src` to `dst` that follows the recorded predecessors back from `dst`.
    pub fn path_to(edge_to: &Vec<usize>, src: &VertexIndex, dst: &VertexIndex, Ghost(adj): Ghost<Seq<Seq<int>>>, Ghost(marked): Ghost<Seq<bool>>) -> (p: Self)
        requires
            exists|d: Seq<nat>| chain_ok(adj, marked, edge_to@, d, src.spec_idx()),
            0 <= src.spec_idx() < adj.len(),
            0 <= dst.spec_idx() < adj.len(),
            marked[dst.spec_idx()],
        ensures
            is_walk(adj, p.vertices()),
            p.vertices()[0] == src.spec_idx(),
            p.vertices().last() == dst.spec_idx(),
            p.vertices().no_duplicates(),
            forall|d2: Seq<nat>| #[trigger] chain_ok(adj, marked, edge_to@, d2, src.spec_idx()) ==> p.vertices().len() <= d2[dst.spec_idx()]
                - d2[src.spec_idx()] + 1,
    {
        let ghost d = choose|d: Seq<nat>| chain_ok(adj, marked, edge_to@, d, src.spec_idx());
        let mut stack: Vec<VertexIndex> = Vec::new();
        let mut mid = *dst;
        while mid.idx != src.idx
            invariant
                chain_ok(adj, marked, edge_to@, d, src.spec_idx()),
                0 <= mid.spec_idx() < adj.len(),
                marked[mid.spec_idx()],
                stack@.len() == 0 ==> mid.spec_idx() == dst.spec_idx(),
                forall|d2: Seq<nat>| #[trigger] chain_ok(adj, marked, edge_to@, d2, src.spec_idx()) ==> stack@.len() + d2[mid.spec_idx()]
                    <= d2[dst.spec_idx()],
                stack@.len() > 0 ==> is_walk(adj, seq![mid.spec_idx()] + positions(stack@).reverse())
                    && positions(stack@).reverse().last() == dst.spec_idx(),
                forall|i: int| 0 <= i < stack@.len() ==> d[mid.spec_idx()] < d[#[trigger] stack@[i].spec_idx()],
                forall|i: int, j: int| 0 <= i < j < stack@.len() ==> d[#[trigger] stack@[j].spec_idx()] < d[#[trigger] stack@[i].spec_idx()],
            decreases d[mid.spec_idx()],
        {
            let ghost old_stack = stack@;
            let ghost m = mid.spec_idx();
            stack.push(mid);
            let next = edge_to[mid.idx];
            mid = VertexIndex { idx: next };
            proof {
                let w = seq![mid.spec_idx()] + positions(stack@).reverse();
                assert(positions(stack@).reverse() =~= seq![m] + positions(old_stack).reverse());
                assert(is_edge(adj, mid.spec_idx(), m));
                if old_stack.len() > 0 {
                    let w0 = seq![m] + positions(old_stack).reverse();
                    assert(w =~= seq![mid.spec_idx()] + w0);
                    assert forall|i: int| 0 <= i < w.len() - 1 implies #[trigger] is_edge(adj, w[i], w[i + 1]) by {
                        if i > 0 {
                            assert(w[i] == w0[i - 1] && w[i + 1] == w0[i]);
                            assert(is_edge(adj, w0[i - 1], w0[i - 1 + 1]));
                        }
                    }
                    assert forall|i: int| 0 <= i < w.len() implies 0 <= #[trigger] w[i] < adj.len() by {
                        if i > 0 {
                            assert(w[i] == w0[i - 1]);
                        }
                    }
                    assert(positions(stack@).reverse().last() == positions(old_stack).reverse().last());
                } else {
                    assert(w =~= seq![mid.spec_idx(), m]);
                    assert forall|i: int| 0 <= i < w.len() - 1 implies #[trigger] is_edge(adj, w[i], w[i + 1]) by {
                    }
                }
            }
        }
        let ghost old_stack = stack@;
        stack.push(*src);
        let p = Path { stack };
        proof {
            let st = p.stack@;
            assert forall|i: int, j: int| 0 <= i < j < st.len() implies d[#[trigger] st[j].spec_idx()] < d[#[trigger] st[i].spec_idx()] by {
                if j == st.len() - 1 {
                    assert(st[j] == *src);
                    assert(st[i] == old_stack[i]);
                } else {
                    assert(st[i] == old_stack[i] && st[j] == old_stack[j]);
                }
            }
            let vs = p.vertices();
            assert forall|i: int, j: int| 0 <= i < vs.len() && 0 <= j < vs.len() && i != j implies vs[i] != vs[j] by {
                let a = st.len() - 1 - i;
                let b = st.len() - 1 - j;
                assert(vs[i] == st[a].spec_idx());
                assert(vs[j] == st[b].spec_idx());
                if a < b {
                    assert(d[st[b].spec_idx()] < d[st[a].spec_idx()]);
                } else {
                    assert(d[st[a].spec_idx()] < d[st[b].spec_idx()]);
                }
            }
            assert(positions(p.stack@).reverse() =~= seq![src.spec_idx()] + positions(old_stack).reverse());
            if old_stack.len() == 0 {
                assert(p.vertices() =~= seq![src.spec_idx()]);
                assert(is_walk(adj, p.vertices()));
            }
        }
        p
    }
}

/// Appending to the visited list a vertex that comes next in depth-first order keeps the
/// depth-first order.
proof fn lemma_dfs_push(adj: Seq<Seq<int>>, q: Seq<usize>, q2: Seq<usize>, x: usize)
    requires
        dfs_visit_order(adj, as_ints(q)),
        q2 == q.push(x),
        q.len() > 0 ==> dfs_next(adj, as_ints(q), x as int),
    ensures
        dfs_visit_order(adj, as_ints(q2)),
{
    let p = as_ints(q);
    let p2 = as_ints(q2);
    assert(p2 =~= p.push(x as int));
    assert forall|kk: int| 1 <= kk < p2.len() implies #[trigger] dfs_next(adj, p2.take(kk), p2[kk]) by {
        if kk < p.len() {
            assert(p2.take(kk) =~= p.take(kk));
            assert(dfs_next(adj, p.take(kk), p[kk]));
        } else {
            assert(p2.take(kk) =~= p);
        }
    }
}

/// The first unvisited target, at `k` in its adjacency list, of the vertex at `j` comes next
/// in depth-first order when every vertex after `j` has all its targets visited.
proof fn lemma_dfs_step(adj: Seq<Seq<int>>, q: Seq<usize>, j: int, k: int, dst: usize)
    requires
        0 <= j < q.len(),
        forall|i: int| 0 <= i < q.len() ==> (#[trigger] q[i]) < adj.len(),
        0 <= k < adj[q[j] as int].len(),
        adj[q[j] as int][k] == dst,
        forall|i: int| 0 <= i < q.len() ==> q[i] != dst,
        forall|m: int| 0 <= m < k ==> exists|i: int| 0 <= i < q.len() && q[i] == #[trigger] adj[q[j] as int][m],
        forall|i: int, v: int| j < i < q.len() && #[trigger] is_edge(adj, q[i] as int, v) ==> exists|l: int| 0 <= l < q.len() && q[l] == v,
    ensures
        dfs_next(adj, as_ints(q), dst as int),
{
    let p = as_ints(q);
    assert(!p.contains(dst as int)) by {
        if p.contains(dst as int) {
            let i = choose|i: int| 0 <= i < p.len() && p[i] == dst as int;
            assert(q[i] == dst);
        }
    }
    assert forall|m2: int| 0 <= m2 < k implies p.contains(#[trigger] adj[p[j]][m2]) by {
        let i = choose|i: int| 0 <= i < q.len() && q[i] == #[trigger] adj[q[j] as int][m2];
        assert(p[i] == adj[p[j]][m2]);
    }
    assert(p[j] == q[j] as int);
    assert(0 <= k < adj[p[j]].len() && adj[p[j]][k] == dst as int && forall|m2: int| 0 <= m2 < k ==> p.contains(#[trigger] adj[p[j]][m2]));
    assert(first_unvisited(adj, p, j, dst as int));
    assert forall|i: int| j < i < p.len() implies !#[trigger] has_unvisited(adj, p, i) by {
        if has_unvisited(adj, p, i) {
            let m = choose|m: int| 0 <= m < adj[p[i]].len() && !p.contains(#[trigger] adj[p[i]][m]);
            let v = adj[p[i]][m];
            assert(p[i] == q[i] as int);
            assert(adj[q[i] as int][m] == v);
            assert(adj[q[i] as int].contains(v));
            assert(is_edge(adj, q[i] as int, v));
            let l = choose|l: int| 0 <= l < q.len() && q[l] == v;
            assert(p[l] == v);
        }
    }
}

/// Depth-first search from `src`, marking every vertex reached and recording for each the
/// vertex it was reached from.
fn dfs<V, E>(
    graph: &LinkedGraph<V, E>,
    marked: &mut Vec<bool>,
    edge_to: &mut Vec<usize>,
    order: &mut Vec<usize>,
    Ghost(root): Ghost<int>,
    src: usize,
)
    requires
        graph.wf(),
        old(marked)@.len() == graph.adj().len(),
        old(edge_to)@.len() == graph.adj().len(),
        src < graph.adj().len(),
        !old(marked)@[src as int],
        0 <= root < graph.adj().len(),
        src == root || (old(marked)@[root] && 0 <= old(edge_to)@[src as int] < graph.adj().len() && old(marked)@[old(edge_to)@[src as int] as int]
            && is_edge(graph.adj(), old(edge_to)@[src as int] as int, src as int)),
        exists|d: Seq<nat>| chain_ok(graph.adj(), old(marked)@, old(edge_to)@, d, root),
        old(order)@.no_duplicates(),
        forall|i: int| 0 <= i < old(order)@.len() ==> 0 <= #[trigger] old(order)@[i] < graph.adj().len() && old(marked)@[old(order)@[i] as int],
        dfs_visit_order(graph.adj(), as_ints(old(order)@)),
        old(order)@.len() > 0 ==> dfs_next(graph.adj(), as_ints(old(order)@), src as int),
        forall|v: int| 0 <= v < graph.adj().len() && #[trigger] old(marked)@[v] ==> exists|i: int| 0 <= i < old(order)@.len() && old(order)@[i] == v,
    ensures
        dfs_visit_order(graph.adj(), as_ints(final(order)@)),
        forall|v: int| 0 <= v < graph.adj().len() && #[trigger] final(marked)@[v] ==> exists|i: int| 0 <= i < final(order)@.len() && final(order)@[i] == v,
        final(order)@.len() > old(order)@.len(),
        final(order)@.subrange(0, old(order)@.len() as int) == old(order)@,
        final(order)@[old(order)@.len() as int] == src,
        final(order)@.no_duplicates(),
        forall|i: int| 0 <= i < final(order)@.len() ==> 0 <= #[trigger] final(order)@[i] < graph.adj().len() && final(marked)@[final(order)@[i] as int],
        forall|i: int| old(order)@.len() <= i < final(order)@.len() ==> !old(marked)@[#[trigger] final(order)@[i] as int],
        forall|v: int| 0 <= v < graph.adj().len() && #[trigger] final(marked)@[v] && !old(marked)@[v] ==> exists|i: int| old(order)@.len() <= i < final(order)@.len() && final(order)@[i] == v,
        final(marked)@.len() == graph.adj().len(),
        final(edge_to)@.len() == graph.adj().len(),
        final(marked)@[src as int],
        forall|v: int| 0 <= v < graph.adj().len() && old(marked)@[v] ==> #[trigger] final(marked)@[v],
        forall|u: int, v: int|
            0 <= u < graph.adj().len() && final(marked)@[u] && !old(marked)@[u] && #[trigger] is_edge(graph.adj(), u, v)
                ==> 0 <= v < graph.adj().len() && final(marked)@[v],
        exists|d: Seq<nat>| chain_ok(graph.adj(), final(marked)@, final(edge_to)@, d, root),
    decreases count_unmarked(old(marked)@),
{
    let ghost adj = graph.adj();
    let ghost entry = marked@;
    let ghost d0 = choose|d: Seq<nat>| chain_ok(adj, marked@, edge_to@, d, root);
    let ghost d1 = if src as int == root {
        d0
    } else {
        d0.update(src as int, d0[edge_to@[src as int] as int] + 1)
    };
    proof {
        lemma_mark_decreases(marked@, src as int);
        graph.lemma_adj_stored();
    }
    marked.set(src, true);
    assert(chain_ok(adj, marked@, edge_to@, d1, root));
    let ghost entry_order = order@;
    order.push(src);
    proof {
        lemma_dfs_push(adj, entry_order, order@, src);
        assert forall|v: int| 0 <= v < adj.len() && #[trigger] marked@[v] implies exists|i: int| 0 <= i < order@.len() && order@[i] == v by {
            if v == src {
                assert(order@[entry_order.len() as int] == v);
            } else {
                assert(entry[v]);
                let i = choose|i: int| 0 <= i < entry_order.len() && entry_order[i] == v;
                assert(order@[i] == v);
            }
        }
        assert forall|i: int, j: int| 0 <= i < order@.len() && 0 <= j < order@.len() && i != j implies order@[i] != order@[j] by {
            if i < entry_order.len() && j < entry_order.len() {
                assert(entry_order[i] != entry_order[j]);
            } else if i < entry_order.len() {
                assert(entry[entry_order[i] as int]);
            } else if j < entry_order.len() {
                assert(entry[entry_order[j] as int]);
            }
        }
        assert forall|v: int| 0 <= v < adj.len() && #[trigger] marked@[v] && !entry[v] implies exists|i: int| entry_order.len() <= i < order@.len() && order@[i] == v by {
            assert(v == src);
            assert(order@[entry_order.len() as int] == v);
        }
    }
    let outs = &graph.vertexs[src].outs;
    assert(adj[src as int] == targets(outs@));
    let mut k: usize = 0;
    while k < outs.len()
        invariant
            graph.wf(),
            adj == graph.adj(),
            adj_wf(adj),
            src < adj.len(),
            0 <= root < adj.len(),
            *outs == graph.vertexs@[src as int].outs,
            adj[src as int] == targets(outs@),
            k <= outs@.len(),
            marked@.len() == adj.len(),
            edge_to@.len() == adj.len(),
            marked@[src as int],
            marked@[root],
            forall|v: int| 0 <= v < adj.len() && entry[v] ==> #[trigger] marked@[v],
            forall|j: int| 0 <= j < k ==> marked@[#[trigger] adj[src as int][j]],
            forall|u: int, v: int|
                0 <= u < adj.len() && marked@[u] && !entry[u] && u != src && #[trigger] is_edge(adj, u, v) ==> 0 <= v < adj.len()
                    && marked@[v],
            exists|d: Seq<nat>| chain_ok(adj, marked@, edge_to@, d, root),
            count_unmarked(marked@) < count_unmarked(entry),
            entry == old(marked)@,
            entry_order == old(order)@,
            order@.len() > entry_order.len(),
            order@.subrange(0, entry_order.len() as int) == entry_order,
            order@[entry_order.len() as int] == src,
            order@.no_duplicates(),
            forall|i: int| 0 <= i < order@.len() ==> 0 <= #[trigger] order@[i] < adj.len() && marked@[order@[i] as int],
            forall|i: int| entry_order.len() <= i < order@.len() ==> !entry[#[trigger] order@[i] as int],
            forall|v: int| 0 <= v < adj.len() && #[trigger] marked@[v] && !entry[v] ==> exists|i: int| entry_order.len() <= i < order@.len() && order@[i] == v,
            dfs_visit_order(adj, as_ints(order@)),
            forall|v: int| 0 <= v < adj.len() && #[trigger] marked@[v] ==> exists|i: int| 0 <= i < order@.len() && order@[i] == v,
        decreases outs@.len() - k,
    {
        let dst = outs[k].to.idx;
        assert(dst == adj[src as int][k as int]);
        assert(0 <= dst < adj.len());
        if !marked[dst] {
            let ghost before_marked = marked@;
            let ghost dnow = choose|d: Seq<nat>| chain_ok(adj, marked@, edge_to@, d, root);
            edge_to.set(dst, src);
            proof {
                assert(adj[src as int][k as int] == dst);
                assert(adj[src as int].contains(dst as int));
                assert(is_edge(adj, src as int, dst as int));
                assert(dst as int != root);
                assert(chain_ok(adj, marked@, edge_to@, dnow, root));
                assert(count_unmarked(marked@) < count_unmarked(entry));
                assert(entry == old(marked)@);
            }
            let ghost before_order = order@;
            proof {
                assert forall|i: int| 0 <= i < order@.len() implies order@[i] != dst by {
                    assert(marked@[order@[i] as int]);
                }
                assert forall|m: int| #![trigger adj[src as int][m]] 0 <= m < k implies exists|i: int| 0 <= i < order@.len() && order@[i] == adj[src as int][m] by {
                    assert(marked@[adj[src as int][m]]);
                }
                assert(order@[entry_order.len() as int] == src);
                assert forall|i: int, v: int| entry_order.len() < i < order@.len() && #[trigger] is_edge(adj, order@[i] as int, v) implies exists|l: int| 0 <= l < order@.len() && order@[l] == v by {
                    assert(!entry[order@[i] as int]);
                    assert(order@[i] != src) by {
                        assert(order@[entry_order.len() as int] == src);
                    }
                    assert(marked@[order@[i] as int]);
                    assert(marked@[v]);
                }
                lemma_dfs_step(adj, order@, entry_order.len() as int, k as int, dst);
            }
            dfs(graph, marked, edge_to, order, Ghost(root), dst);
            proof {
                lemma_count_superset(before_marked, marked@);
                assert forall|i: int| 0 <= i < before_order.len() implies #[trigger] order@[i] == before_order[i] by {
                    assert(order@.subrange(0, before_order.len() as int)[i] == order@[i]);
                }
                assert(order@.subrange(0, entry_order.len() as int) =~= entry_order);
                assert(order@[entry_order.len() as int] == before_order[entry_order.len() as int]);
                assert forall|i: int| entry_order.len() <= i < order@.len() implies !entry[#[trigger] order@[i] as int] by {
                    if i < before_order.len() {
                        assert(order@[i] == before_order[i]);
                    } else {
                        assert(!before_marked[order@[i] as int]);
                    }
                }
                assert forall|v: int| 0 <= v < adj.len() && #[trigger] marked@[v] && !entry[v] implies exists|i: int| entry_order.len() <= i < order@.len() && order@[i] == v by {
                    if before_marked[v] {
                        let i = choose|i: int| entry_order.len() <= i < before_order.len() && before_order[i] == v;
                        assert(order@[i] == v);
                    } else {
                        let i = choose|i: int| before_order.len() <= i < order@.len() && order@[i] == v;
                        assert(entry_order.len() <= i);
                    }
                }
            }
        }
        k = k + 1;
    }
    proof {
        assert forall|u: int, v: int|
            0 <= u < adj.len() && marked@[u] && !entry[u] && #[trigger] is_edge(adj, u, v) implies 0 <= v < adj.len()
                && marked@[v] by {
            if u == src {
                let j = choose|j: int| 0 <= j < adj[u].len() && adj[u][j] == v;
                assert(marked@[adj[src as int][j]]);
            }
        }
    }
}

/// `n` unmarked entries and `n` zero predecessors.
pub(crate) fn fresh_marks(n: usize) -> (r: (Vec<bool>, Vec<usize>))
    ensures
        r.0@.len() == n,
        r.1@.len() == n,
        forall|i: int| 0 <= i < n ==> !#[trigger] r.0@[i],
{
    let mut marked: Vec<bool> = Vec::new();
    let mut edge_to: Vec<usize> = Vec::new();
    let mut i: usize = 0;
    while i < n
        invariant
            i <= n,
            marked@.len() == i,
            edge_to@.len() == i,
            forall|j: int| 0 <= j < i ==> !#[trigger] marked@[j],
        decreases n - i,
    {
        marked.push(false);
        edge_to.push(0);
        i = i + 1;
    }
    (marked, edge_to)
}

/// Whether the marks are exactly the vertices reachable from `src`, with predecessors
/// recorded along walks from `src`.
pub open spec fn search_result(adj: Seq<Seq<int>>, src: int, marked: Seq<bool>, edge_to: Seq<usize>) -> bool {
    &&& marked.len() == adj.len()
    &&& edge_to.len() == adj.len()
    &&& (marked.len() > 0 ==> 0 <= src < adj.len())
    &&& exists|d: Seq<nat>| chain_ok(adj, marked, edge_to, d, src)
    &&& forall|v: int| 0 <= v < adj.len() ==> (#[trigger] marked[v] <==> reachable(adj, src, v))
}

/// From a finished search whose marked set is closed under edges and holds `src`, every
/// mark means reachable and every reachable vertex is marked.
proof fn lemma_search_result(adj: Seq<Seq<int>>, src: int, marked: Seq<bool>, edge_to: Seq<usize>)
    requires
        marked.len() == adj.len(),
        edge_to.len() == adj.len(),
        0 <= src < adj.len(),
        marked[src],
        exists|d: Seq<nat>| chain_ok(adj, marked, edge_to, d, src),
        forall|u: int, v: int| 0 <= u < adj.len() && marked[u] && #[trigger] is_edge(adj, u, v) ==> 0 <= v < adj.len() && marked[v],
    ensures
        search_result(adj, src, marked, edge_to),
{
    let d = choose|d: Seq<nat>| chain_ok(adj, marked, edge_to, d, src);
    assert forall|v: int| 0 <= v < adj.len() implies (#[trigger] marked[v] <==> reachable(adj, src, v)) by {
        if marked[v] {
            lemma_chain_reachable(adj, marked, edge_to, d, src, v);
        }
        if reachable(adj, src, v) {
            lemma_closed_holds_reachable(adj, marked, src, v);
        }
    }
}

/// The vertices reachable from one source, found by depth-first search, with a path to each.
pub struct DepthFirstPaths {
    src: VertexIndex,
    pub(crate) marked: Vec<bool>,
    pub(crate) edge_to: Vec<usize>,
    adj: Ghost<Seq<Seq<int>>>,
}

impl DepthFirstPaths {
    /// The adjacency lists of the graph searched.
    pub closed spec fn spec_adj(&self) -> Seq<Seq<int>> {
        self.adj@
    }

    /// The source of the search.
    pub closed spec fn spec_src(&self) -> int {
        self.src.idx as int
    }

    /// Whether the search reached vertex `v`.
    pub closed spec fn reaches(&self, v: int) -> bool {
        0 <= v < self.marked@.len() && self.marked@[v]
    }

    /// The marks and predecessors are those of a finished search.
    pub closed spec fn wf(&self) -> bool {
        search_result(self.adj@, self.src.idx as int, self.marked@, self.edge_to@)
    }

    /// Searches `graph` depth-first from `src`.
    pub fn new<V, E>(graph: &LinkedGraph<V, E>, src: &VertexIndex) -> (r: Self)
        requires
            graph.wf(),
            src.spec_idx() < graph.adj().len(),
        ensures
            r.wf(),
            r.spec_adj() == graph.adj(),
            r.spec_src() == src.spec_idx(),
            forall|v: int| 0 <= v < graph.adj().len() ==> (#[trigger] r.reaches(v) <==> reachable(graph.adj(), src.spec_idx(), v)),
            forall|v: int| v < 0 || v >= graph.adj().len() ==> !#[trigger] r.reaches(v),
    {
        let (mut marked, mut edge_to) = fresh_marks(graph.vertex_num());
        let ghost adj = graph.adj();
        proof {
            graph.lemma_adj_stored();
            let d = Seq::new(adj.len(), |i: int| 0nat);
            assert(chain_ok(adj, marked@, edge_to@, d, src.spec_idx()));
        }
        let mut order: Vec<usize> = Vec::new();
        dfs(graph, &mut marked, &mut edge_to, &mut order, Ghost(src.idx as int), src.idx);
        proof {
            lemma_search_result(adj, src.spec_idx(), marked@, edge_to@);
        }
        DepthFirstPaths { src: *src, marked, edge_to, adj: Ghost(adj) }
    }

    /// A search result from `src` that has reached nothing yet.
    pub fn uninit(src: &VertexIndex) -> (r: Self)
        ensures
            r.wf(),
            r.spec_src() == src.spec_idx(),
            r.spec_adj() == Seq::<Seq<int>>::empty(),
            forall|v: int| !#[trigger] r.reaches(v),
    {
        let r = DepthFirstPaths { src: *src, marked: Vec::new(), edge_to: Vec::new(), adj: Ghost(Seq::empty()) };
        proof {
            let d = Seq::<nat>::empty();
            assert(chain_ok(r.adj@, r.marked@, r.edge_to@, d, src.spec_idx()));
        }
        r
    }

    /// Whether there is a path from the source to `dst`.
    pub fn has_path_to(&self, dst: &VertexIndex) -> (b: bool)
        ensures
            b == self.reaches(dst.spec_idx()),
    {
        dst.idx < self.marked.len() && self.marked[dst.idx]
    }

    /// A walk from the source to `dst` along the recorded predecessors, or an empty path
    /// when `dst` was not reached.
    pub fn path_to(&self, dst: &VertexIndex) -> (p: Path)
        requires
            self.wf(),
        ensures
            self.reaches(dst.spec_idx()) ==> is_walk(self.spec_adj(), p.vertices()) && p.vertices()[0] == self.spec_src()
                && p.vertices().last() == dst.spec_idx() && p.vertices().no_duplicates(),
            !self.reaches(dst.spec_idx()) ==> p.vertices() == Seq::<int>::empty(),
    {
        if self.has_path_to(dst) {
            proof {
                let d = choose|d: Seq<nat>| chain_ok(self.adj@, self.marked@, self.edge_to@, d, self.src.idx as int);
                assert(chain_ok(self.adj@, self.marked@, self.edge_to@, d, self.src.spec_idx()));
            }
            Path::path_to(&self.edge_to, &self.src, dst, Ghost(self.adj@), Ghost(self.marked@))
        } else {
            Path::new()
        }
    }
}

/// Distances from `src` that no edge out of a marked vertex can shorten: `src` is at
/// distance zero, and an edge from a marked vertex leads at most one further.
pub open spec fn shortest_marks(adj: Seq<Seq<int>>, marked: Seq<bool>, dist: Seq<nat>, src: int) -> bool {
    &&& dist.len() == adj.len()
    &&& dist[src] == 0
    &&& forall|u: int, v: int| 0 <= u < adj.len() && marked[u] && #[trigger] is_edge(adj, u, v) ==> dist[v] <= dist[u] + 1
}

/// Along a walk from `src` through marked vertices closed under edges, the distance of the
/// vertex at position `i` is at most `i`.
proof fn lemma_walk_dist(adj: Seq<Seq<int>>, marked: Seq<bool>, dist: Seq<nat>, src: int, q: Seq<int>, i: int)
    requires
        shortest_marks(adj, marked, dist, src),
        marked.len() == adj.len(),
        0 <= src < adj.len(),
        forall|w: int| 0 <= w < adj.len() ==> (#[trigger] marked[w] <==> reachable(adj, src, w)),
        is_walk(adj, q),
        q[0] == src,
        0 <= i < q.len(),
    ensures
        marked[q[i]],
        dist[q[i]] <= i,
    decreases i,
{
    if i > 0 {
        lemma_walk_dist(adj, marked, dist, src, q, i - 1);
        assert(is_edge(adj, q[i - 1], q[i - 1 + 1]));
        lemma_reachable_step(adj, src, q[i - 1], q[i]);
    } else {
        lemma_reachable_self(adj, src);
    }
}

/// Breadth-first search from `src`, marking every vertex reached and recording for each
/// the vertex it was first reached from.
fn bfs<V, E>(graph: &LinkedGraph<V, E>, marked: &mut Vec<bool>, edge_to: &mut Vec<usize>, src: usize) -> (r: (Vec<usize>, Ghost<Seq<nat>>))
    requires
        graph.wf(),
        old(marked)@.len() == graph.adj().len(),
        old(edge_to)@.len() == graph.adj().len(),
        src < graph.adj().len(),
        forall|i: int| 0 <= i < old(marked)@.len() ==> !#[trigger] old(marked)@[i],
    ensures
        search_result(graph.adj(), src as int, final(marked)@, final(edge_to)@),
        r.0@.len() > 0,
        r.0@[0] == src,
        r.0@.no_duplicates(),
        forall|i: int| 0 <= i < r.0@.len() ==> 0 <= #[trigger] r.0@[i] < graph.adj().len() && final(marked)@[r.0@[i] as int],
        forall|v: int| 0 <= v < graph.adj().len() && #[trigger] final(marked)@[v] ==> exists|i: int| 0 <= i < r.0@.len() && r.0@[i] == v,
        chain_ok(graph.adj(), final(marked)@, final(edge_to)@, r.1@, src as int),
        shortest_marks(graph.adj(), final(marked)@, r.1@, src as int),
        bfs_visit_order(graph.adj(), as_ints(r.0@)),
{
    let ghost adj = graph.adj();
    proof {
        graph.lemma_adj_stored();
    }
    let ghost d0 = Seq::new(adj.len(), |i: int| 0nat);
    assert(chain_ok(adj, marked@, edge_to@, d0, src as int));
    let ghost start = marked@;
    let mut queue: Vec<usize> = Vec::new();
    proof {
        lemma_mark_decreases(marked@, src as int);
    }
    marked.set(src, true);
    queue.push(src);
    let mut head: usize = 0;
    let ghost mut dist = d0;
    proof {
        assert(chain_ok(adj, marked@, edge_to@, d0, src as int));
        assert forall|v: int| 0 <= v < adj.len() && #[trigger] marked@[v] implies exists|i: int| 0 <= i < queue@.len() && queue@[i] == v by {
            assert(v == src);
            assert(queue@[0] == v);
        }
    }
    while head < queue.len()
        invariant
            graph.wf(),
            adj == graph.adj(),
            adj_wf(adj),
            graph.vertexs@.len() == adj.len(),
            forall|w: int| 0 <= w < graph.vertexs@.len() ==> #[trigger] adj[w] == targets(graph.vertexs@[w].outs@),
            src < adj.len(),
            marked@.len() == adj.len(),
            edge_to@.len() == adj.len(),
            head <= queue@.len(),
            queue@.len() > 0,
            queue@[0] == src,
            queue@.no_duplicates(),
            marked@[src as int],
            forall|i: int| 0 <= i < queue@.len() ==> 0 <= #[trigger] queue@[i] < adj.len() && marked@[queue@[i] as int],
            forall|v: int| 0 <= v < adj.len() && #[trigger] marked@[v] ==> exists|i: int| 0 <= i < queue@.len() && queue@[i] == v,
            forall|i: int, v: int|
                0 <= i < head && #[trigger] is_edge(adj, queue@[i] as int, v) ==> 0 <= v < adj.len() && marked@[v],
            exists|d: Seq<nat>| chain_ok(adj, marked@, edge_to@, d, src as int),
            count_unmarked(marked@) + queue@.len() == count_unmarked(start),
            chain_ok(adj, marked@, edge_to@, dist, src as int),
            dist[src as int] == 0,
            head == 0 ==> queue@.len() == 1,
            forall|i: int, j: int| 0 <= i < j < queue@.len() ==> dist[#[trigger] queue@[i] as int] <= dist[#[trigger] queue@[j] as int],
            head > 0 ==> forall|i: int| 0 <= i < queue@.len() ==> dist[#[trigger] queue@[i] as int] <= dist[queue@[head - 1] as int] + 1,
            forall|i: int, v: int| 0 <= i < head && #[trigger] is_edge(adj, queue@[i] as int, v) ==> dist[v] <= dist[queue@[i] as int] + 1,
            bfs_visit_order(adj, as_ints(queue@)),
        decreases count_unmarked(marked@) + queue@.len() - head,
    {
        let u = queue[head];
        proof {
            if head > 0 {
                assert(dist[queue@[head - 1] as int] <= dist[queue@[head as int] as int]);
            }
            assert forall|i: int| 0 <= i < queue@.len() implies dist[#[trigger] queue@[i] as int] <= dist[u as int] + 1 by {
                if head > 0 {
                    assert(dist[queue@[head - 1] as int] <= dist[queue@[head as int] as int]);
                } else {
                    assert(i == 0);
                }
            }
        }
        head = head + 1;
        let outs = &graph.vertexs[u].outs;
        assert(adj[u as int] == targets(outs@));
        let mut k: usize = 0;
        while k < outs.len()
            invariant
                graph.wf(),
                adj == graph.adj(),
                adj_wf(adj),
                src < adj.len(),
                u < adj.len(),
                0 < head <= queue@.len(),
                queue@[0] == src,
                queue@.no_duplicates(),
                queue@[head - 1] == u,
                *outs == graph.vertexs@[u as int].outs,
                adj[u as int] == targets(outs@),
                k <= outs@.len(),
                marked@.len() == adj.len(),
                edge_to@.len() == adj.len(),
                marked@[src as int],
                marked@[u as int],
                forall|i: int| 0 <= i < queue@.len() ==> 0 <= #[trigger] queue@[i] < adj.len() && marked@[queue@[i] as int],
                forall|v: int| 0 <= v < adj.len() && #[trigger] marked@[v] ==> exists|i: int| 0 <= i < queue@.len() && queue@[i] == v,
                forall|i: int, v: int|
                    0 <= i < head - 1 && #[trigger] is_edge(adj, queue@[i] as int, v) ==> 0 <= v < adj.len() && marked@[v],
                forall|j: int| 0 <= j < k ==> marked@[#[trigger] adj[u as int][j]],
                exists|d: Seq<nat>| chain_ok(adj, marked@, edge_to@, d, src as int),
                count_unmarked(marked@) + queue@.len() == count_unmarked(start),
                chain_ok(adj, marked@, edge_to@, dist, src as int),
                dist[src as int] == 0,
                forall|i: int, j: int| 0 <= i < j < queue@.len() ==> dist[#[trigger] queue@[i] as int] <= dist[#[trigger] queue@[j] as int],
                forall|i: int| 0 <= i < queue@.len() ==> dist[#[trigger] queue@[i] as int] <= dist[u as int] + 1,
                forall|i: int, v: int| 0 <= i < head - 1 && #[trigger] is_edge(adj, queue@[i] as int, v) ==> dist[v] <= dist[queue@[i] as int] + 1,
                forall|j: int| 0 <= j < k ==> dist[#[trigger] adj[u as int][j]] <= dist[u as int] + 1,
                bfs_visit_order(adj, as_ints(queue@)),
            decreases outs@.len() - k,
        {
            let dst = outs[k].to.idx;
            assert(dst == adj[u as int][k as int]);
            if marked[dst] {
                proof {
                    let i = choose|i: int| 0 <= i < queue@.len() && queue@[i] == dst;
                    assert(dist[queue@[i] as int] <= dist[u as int] + 1);
                }
            }
            if !marked[dst] {
                let ghost dnow = choose|d: Seq<nat>| chain_ok(adj, marked@, edge_to@, d, src as int);
                let ghost dist0 = dist;
                proof {
                    assert(adj[u as int].contains(dst as int));
                    assert(is_edge(adj, u as int, dst as int));
                    lemma_mark_decreases(marked@, dst as int);
                }
                edge_to.set(dst, u);
                marked.set(dst, true);
                let ghost qlen = queue@.len();
                let ghost oldq = queue@;
                queue.push(dst);
                proof {
                    assert forall|i: int, j: int| 0 <= i < queue@.len() && 0 <= j < queue@.len() && i != j implies queue@[i] != queue@[j] by {
                        if i < oldq.len() && j < oldq.len() {
                            assert(oldq[i] != oldq[j]);
                        }
                    }
                    let d2 = dnow.update(dst as int, dnow[u as int] + 1);
                    assert(dst as int != src);
                    assert(chain_ok(adj, marked@, edge_to@, d2, src as int));
                    dist = dist0.update(dst as int, dist0[u as int] + 1);
                    assert(chain_ok(adj, marked@, edge_to@, dist, src as int));
                    assert forall|i: int| 0 <= i < oldq.len() implies #[trigger] dist[oldq[i] as int] == dist0[oldq[i] as int] by {
                        assert(oldq[i] != dst);
                    }
                    assert forall|i: int, j: int| 0 <= i < j < queue@.len() implies dist[#[trigger] queue@[i] as int] <= dist[#[trigger] queue@[j] as int] by {
                        if j < oldq.len() {
                            assert(queue@[i] == oldq[i] && queue@[j] == oldq[j]);
                        } else {
                            assert(queue@[i] == oldq[i]);
                        }
                    }
                    assert forall|i: int| 0 <= i < queue@.len() implies dist[#[trigger] queue@[i] as int] <= dist[u as int] + 1 by {
                        if i < oldq.len() {
                            assert(queue@[i] == oldq[i]);
                        }
                    }
                    assert forall|i: int, v: int| 0 <= i < head - 1 && #[trigger] is_edge(adj, queue@[i] as int, v) implies dist[v] <= dist[queue@[i] as int] + 1 by {
                        assert(queue@[i] == oldq[i]);
                        assert(dist0[v] <= dist0[oldq[i] as int] + 1);
                        if v == dst {
                            assert(marked@[v]);
                        }
                    }
                    assert forall|j: int| 0 <= j < k implies dist[#[trigger] adj[u as int][j]] <= dist[u as int] + 1 by {
                        assert(dist0[adj[u as int][j]] <= dist0[u as int] + 1);
                    }
                    lemma_bfs_push(adj, oldq, queue@, head - 1, k as int, dst);
                    assert forall|v: int| 0 <= v < adj.len() && #[trigger] marked@[v] implies exists|i: int| 0 <= i < queue@.len() && queue@[i] == v by {
                        if v == dst {
                            assert(queue@[qlen as int] == v);
                        } else {
                            let i = choose|i: int| 0 <= i < oldq.len() && oldq[i] == v;
                            assert(queue@[i] == oldq[i]);
                        }
                    }
                }
            }
            k = k + 1;
        }
        proof {
            assert forall|i: int, v: int|
                0 <= i < head && #[trigger] is_edge(adj, queue@[i] as int, v) implies 0 <= v < adj.len() && marked@[v] by {
                if i == head - 1 {
                    let j = choose|j: int| 0 <= j < adj[u as int].len() && adj[u as int][j] == v;
                    assert(marked@[adj[u as int][j]]);
                }
            }
            assert forall|i: int, v: int| 0 <= i < head && #[trigger] is_edge(adj, queue@[i] as int, v) implies dist[v] <= dist[queue@[i] as int] + 1 by {
                if i == head - 1 {
                    let j = choose|j: int| 0 <= j < adj[u as int].len() && adj[u as int][j] == v;
                    assert(dist[adj[u as int][j]] <= dist[u as int] + 1);
                }
            }
        }
    }
    proof {
        assert forall|x: int, v: int| 0 <= x < adj.len() && marked@[x] && #[trigger] is_edge(adj, x, v) implies 0 <= v < adj.len() && marked@[v] by {
            let i = choose|i: int| 0 <= i < queue@.len() && queue@[i] == x;
            assert(is_edge(adj, queue@[i] as int, v));
        }
        lemma_search_result(adj, src as int, marked@, edge_to@);
        assert forall|x: int, v: int| 0 <= x < adj.len() && marked@[x] && #[trigger] is_edge(adj, x, v) implies dist[v] <= dist[x] + 1 by {
            let i = choose|i: int| 0 <= i < queue@.len() && queue@[i] == x;
            assert(is_edge(adj, queue@[i] as int, v));
        }
    }
    (queue, Ghost(dist))
}

/// Appending to the visited list the first unvisited target, at `k` in its adjacency list,
/// of the vertex at `h`, when every vertex before `h` has all its targets visited, keeps
/// the breadth-first order.
proof fn lemma_bfs_push(adj: Seq<Seq<int>>, q: Seq<usize>, q2: Seq<usize>, h: int, k: int, dst: usize)
    requires
        bfs_visit_order(adj, as_ints(q)),
        q2 == q.push(dst),
        0 <= h < q.len(),
        0 <= k < adj[q[h] as int].len(),
        adj[q[h] as int][k] == dst,
        forall|i: int| 0 <= i < q.len() ==> q[i] != dst,
        forall|i: int| 0 <= i < q.len() ==> (#[trigger] q[i]) < adj.len(),
        forall|m: int| 0 <= m < k ==> exists|i: int| 0 <= i < q.len() && q[i] == #[trigger] adj[q[h] as int][m],
        forall|i: int, v: int| 0 <= i < h && #[trigger] is_edge(adj, q[i] as int, v) ==> exists|j: int| 0 <= j < q.len() && q[j] == v,
    ensures
        bfs_visit_order(adj, as_ints(q2)),
{
    let p = as_ints(q);
    let p2 = as_ints(q2);
    assert(p2 =~= p.push(dst as int));
    assert forall|kk: int| 1 <= kk < p2.len() implies #[trigger] bfs_next(adj, p2.take(kk), p2[kk]) by {
        if kk < p.len() {
            assert(p2.take(kk) =~= p.take(kk));
            assert(bfs_next(adj, p.take(kk), p[kk]));
        } else {
            assert(p2.take(kk) =~= p);
            assert(!p.contains(dst as int)) by {
                if p.contains(dst as int) {
                    let i = choose|i: int| 0 <= i < p.len() && p[i] == dst as int;
                    assert(q[i] == dst);
                }
            }
            assert forall|m2: int| 0 <= m2 < k implies p.contains(#[trigger] adj[p[h]][m2]) by {
                let i = choose|i: int| 0 <= i < q.len() && q[i] == #[trigger] adj[q[h] as int][m2];
                assert(p[i] == adj[p[h]][m2]);
            }
            assert(p[h] == q[h] as int);
            assert(0 <= k < adj[p[h]].len() && adj[p[h]][k] == dst as int && forall|m2: int| 0 <= m2 < k ==> p.contains(#[trigger] adj[p[h]][m2]));
            assert(first_unvisited(adj, p, h, dst as int));
            assert forall|i: int| 0 <= i < h implies !#[trigger] has_unvisited(adj, p, i) by {
                if has_unvisited(adj, p, i) {
                    let m = choose|m: int| 0 <= m < adj[p[i]].len() && !p.contains(#[trigger] adj[p[i]][m]);
                    let v = adj[p[i]][m];
                    assert(p[i] == q[i] as int);
                    assert(adj[q[i] as int][m] == v);
                    assert(adj[q[i] as int].contains(v));
                    assert(is_edge(adj, q[i] as int, v));
                    let j = choose|j: int| 0 <= j < q.len() && q[j] == v;
                    assert(p[j] == v);
                }
            }
        }
    }
}

/// The vertices reachable from one source, found by breadth-first search, with a path to
/// each.
pub struct BreadthFirstPaths {
    src: VertexIndex,
    pub(crate) marked: Vec<bool>,
    edge_to: Vec<usize>,
    adj: Ghost<Seq<Seq<int>>>,
    dist: Ghost<Seq<nat>>,
}

impl BreadthFirstPaths {
    /// The adjacency lists of the graph searched.
    pub closed spec fn spec_adj(&self) -> Seq<Seq<int>> {
        self.adj@
    }

    /// The source of the search.
    pub closed spec fn spec_src(&self) -> int {
        self.src.idx as int
    }

    /// Whether the search reached vertex `v`.
    pub closed spec fn reaches(&self, v: int) -> bool {
        0 <= v < self.marked@.len() && self.marked@[v]
    }

    /// The marks and predecessors are those of a finished search, and the predecessors
    /// lead back along fewest edges.
    pub closed spec fn wf(&self) -> bool {
        &&& search_result(self.adj@, self.src.idx as int, self.marked@, self.edge_to@)
        &&& chain_ok(self.adj@, self.marked@, self.edge_to@, self.dist@, self.src.idx as int)
        &&& shortest_marks(self.adj@, self.marked@, self.dist@, self.src.idx as int)
    }

    /// Searches `graph` breadth-first from `src`.
    pub fn new<V, E>(graph: &LinkedGraph<V, E>, src: &VertexIndex) -> (r: Self)
        requires
            graph.wf(),
            src.spec_idx() < graph.adj().len(),
        ensures
            r.wf(),
            r.spec_adj() == graph.adj(),
            r.spec_src() == src.spec_idx(),
            forall|v: int| 0 <= v < graph.adj().len() ==> (#[trigger] r.reaches(v) <==> reachable(graph.adj(), src.spec_idx(), v)),
            forall|v: int| v < 0 || v >= graph.adj().len() ==> !#[trigger] r.reaches(v),
    {
        let (mut marked, mut edge_to) = fresh_marks(graph.vertex_num());
        proof {
            graph.lemma_adj_stored();
        }
        let (_, dist) = bfs(graph, &mut marked, &mut edge_to, src.idx);
        BreadthFirstPaths { src: *src, marked, edge_to, adj: Ghost(graph.adj()), dist }
    }

    /// Whether there is a path from the source to `dst`.
    pub fn has_path_to(&self, dst: &VertexIndex) -> (b: bool)
        ensures
            b == self.reaches(dst.spec_idx()),
    {
        dst.idx < self.marked.len() && self.marked[dst.idx]
    }

    /// A walk from the source to `dst` along the recorded predecessors, or an empty path
    /// when `dst` was not reached.
    pub fn path_to(&self, dst: &VertexIndex) -> (p: Path)
        requires
            self.wf(),
        ensures
            self.reaches(dst.spec_idx()) ==> is_walk(self.spec_adj(), p.vertices()) && p.vertices()[0] == self.spec_src()
                && p.vertices().last() == dst.spec_idx() && p.vertices().no_duplicates(),
            self.reaches(dst.spec_idx()) ==> forall|q: Seq<int>| #[trigger] is_walk(self.spec_adj(), q) && q[0] == self.spec_src()
                && q.last() == dst.spec_idx() ==> p.vertices().len() <= q.len(),
            !self.reaches(dst.spec_idx()) ==> p.vertices() == Seq::<int>::empty(),
    {
        if self.has_path_to(dst) {
            proof {
                assert(chain_ok(self.adj@, self.marked@, self.edge_to@, self.dist@, self.src.spec_idx()));
            }
            let p = Path::path_to(&self.edge_to, &self.src, dst, Ghost(self.adj@), Ghost(self.marked@));
            proof {
                let adj = self.adj@;
                let srcv = self.src.spec_idx();
                assert(chain_ok(adj, self.marked@, self.edge_to@, self.dist@, srcv));
                assert forall|q: Seq<int>| #[trigger] is_walk(adj, q) && q[0] == srcv && q.last() == dst.spec_idx() implies p.vertices().len() <= q.len() by {
                    lemma_walk_dist(adj, self.marked@, self.dist@, srcv, q, q.len() - 1);
                }
            }
            p
        } else {
            Path::new()
        }
    }
}

impl<V, E> LinkedGraph<V, E> {
    /// Paths from `src` found by depth-first search.
    pub fn dfs_paths(&self, src: &VertexIndex) -> (r: DepthFirstPaths)
        requires
            self.wf(),
            src.spec_idx() < self.adj().len(),
        ensures
            r.wf(),
            r.spec_adj() == self.adj(),
            r.spec_src() == src.spec_idx(),
            forall|v: int| 0 <= v < self.adj().len() ==> (#[trigger] r.reaches(v) <==> reachable(self.adj(), src.spec_idx(), v)),
            forall|v: int| v < 0 || v >= self.adj().len() ==> !#[trigger] r.reaches(v),
    {
        DepthFirstPaths::new(self, src)
    }

    /// Paths from `src` found by breadth-first search.
    pub fn bfs_paths(&self, src: &VertexIndex) -> (r: BreadthFirstPaths)
        requires
            self.wf(),
            src.spec_idx() < self.adj().len(),
        ensures
            r.wf(),
            r.spec_adj() == self.adj(),
            r.spec_src() == src.spec_idx(),
            forall|v: int| 0 <= v < self.adj().len() ==> (#[trigger] r.reaches(v) <==> reachable(self.adj(), src.spec_idx(), v)),
            forall|v: int| v < 0 || v >= self.adj().len() ==> !#[trigger] r.reaches(v),
    {
        BreadthFirstPaths::new(self, src)
    }

    /// The keys of the vertices a depth-first search from `src` visits, in the order it
    /// visits them: `src` first, then each vertex reachable from `src` once; `src` alone
    /// when it is not a vertex.
    pub fn dfs(&self, src: &VertexIndex) -> (r: Vec<VertexIndex>)
        requires
            self.wf(),
        ensures
            src.spec_idx() >= self.adj().len() ==> r@ == seq![*src],
            r@.len() > 0,
            r@[0] == *src,
            positions(r@).no_duplicates(),
            src.spec_idx() < self.adj().len() ==> forall|v: int| #[trigger] positions(r@).contains(v) <==> 0 <= v < self.adj().len()
                && reachable(self.adj(), src.spec_idx(), v),
            src.spec_idx() < self.adj().len() ==> dfs_visit_order(self.adj(), positions(r@)),
    {
        proof {
            self.lemma_models();
        }
        if src.idx < self.vertex_num() {
            let (mut marked, mut edge_to) = fresh_marks(self.vertex_num());
            let ghost adj = self.adj();
            proof {
                self.lemma_adj_stored();
                let d = Seq::new(adj.len(), |i: int| 0nat);
                assert(chain_ok(adj, marked@, edge_to@, d, src.spec_idx()));
            }
            let ghost start = marked@;
            let mut order: Vec<usize> = Vec::new();
            dfs(self, &mut marked, &mut edge_to, &mut order, Ghost(src.idx as int), src.idx);
            proof {
                lemma_search_result(adj, src.spec_idx(), marked@, edge_to@);
                assert(order@.subrange(0, 0) =~= Seq::<usize>::empty());
            }
            let r = keys_of(&order);
            proof {
                lemma_visit_order(adj, src.spec_idx(), start, marked@, order@, r@);
                assert(positions(r@) =~= as_ints(order@));
            }
            r
        } else {
            vec![*src]
        }
    }

    /// The keys of the vertices a breadth-first search from `src` visits, in the order it
    /// visits them: `src` first, then each vertex reachable from `src` once; `src` alone
    /// when it is not a vertex.
    pub fn bfs(&self, src: &VertexIndex) -> (r: Vec<VertexIndex>)
        requires
            self.wf(),
        ensures
            src.spec_idx() >= self.adj().len() ==> r@ == seq![*src],
            r@.len() > 0,
            r@[0] == *src,
            positions(r@).no_duplicates(),
            src.spec_idx() < self.adj().len() ==> forall|v: int| #[trigger] positions(r@).contains(v) <==> 0 <= v < self.adj().len()
                && reachable(self.adj(), src.spec_idx(), v),
            src.spec_idx() < self.adj().len() ==> bfs_visit_order(self.adj(), positions(r@)),
    {
        proof {
            self.lemma_models();
        }
        if src.idx < self.vertex_num() {
            let (mut marked, mut edge_to) = fresh_marks(self.vertex_num());
            proof {
                self.lemma_adj_stored();
            }
            let ghost start = marked@;
            let (order, _) = bfs(self, &mut marked, &mut edge_to, src.idx);
            let r = keys_of(&order);
            proof {
                lemma_visit_order(self.adj(), src.spec_idx(), start, marked@, order@, r@);
                assert(positions(r@) =~= as_ints(order@));
            }
            r
        } else {
            vec![*src]
        }
    }
}

/// The keys at the given positions, in the same order.
fn keys_of(order: &Vec<usize>) -> (r: Vec<VertexIndex>)
    ensures
        r@.len() == order@.len(),
        forall|i: int| 0 <= i < r@.len() ==> (#[trigger] r@[i]).idx == order@[i],
{
    let mut r: Vec<VertexIndex> = Vec::new();
    let mut i: usize = 0;
    while i < order.len()
        invariant
            i <= order@.len(),
            r@.len() == i,
            forall|k: int| 0 <= k < i ==> (#[trigger] r@[k]).idx == order@[k],
        decreases order@.len() - i,
    {
        r.push(VertexIndex { idx: order[i] });
        i = i + 1;
    }
    r
}

/// A search that started with nothing marked and lists, in `order`, each vertex it marked
/// exactly once, source first, lists exactly the vertices reachable from the source.
proof fn lemma_visit_order(adj: Seq<Seq<int>>, src: int, start: Seq<bool>, marked: Seq<bool>, order: Seq<usize>, r: Seq<VertexIndex>)
    requires
        0 <= src < adj.len(),
        marked.len() == adj.len(),
        forall|i: int| 0 <= i < start.len() ==> !#[trigger] start[i],
        start.len() == adj.len(),
        forall|v: int| 0 <= v < adj.len() ==> (#[trigger] marked[v] <==> reachable(adj, src, v)),
        order.len() > 0,
        order[0] == src,
        order.no_duplicates(),
        forall|i: int| 0 <= i < order.len() ==> 0 <= #[trigger] order[i] < adj.len() && marked[order[i] as int],
        forall|v: int| 0 <= v < adj.len() && #[trigger] marked[v] && !start[v] ==> exists|i: int| 0 <= i < order.len() && order[i] == v,
        r.len() == order.len(),
        forall|i: int| 0 <= i < r.len() ==> (#[trigger] r[i]).idx == order[i],
    ensures
        r.len() > 0,
        r[0] == (VertexIndex { idx: src as usize }),
        positions(r).no_duplicates(),
        forall|v: int| #[trigger] positions(r).contains(v) <==> 0 <= v < adj.len() && reachable(adj, src, v),
{
    assert(positions(r) =~= order.map_values(|x: usize| x as int));
    assert(r[0].idx == order[0]);
    assert forall|v: int| #[trigger] positions(r).contains(v) <==> 0 <= v < adj.len() && reachable(adj, src, v) by {
        if positions(r).contains(v) {
            let i = choose|i: int| 0 <= i < positions(r).len() && positions(r)[i] == v;
            assert(order[i] == v);
        }
        if 0 <= v < adj.len() && reachable(adj, src, v) {
            assert(marked[v]);
            assert(!start[v]);
            let i = choose|i: int| 0 <= i < order.len() && order[i] == v;
            assert(positions(r)[i] == v);
        }
    }
    assert forall|i: int, j: int| 0 <= i < positions(r).len() && 0 <= j < positions(r).len() && i != j implies positions(r)[i] != positions(r)[j] by {
        assert(order[i] != order[j]);
    }
}

} // verus!
