//! Finding one directed cycle by depth-first search.

use vstd::prelude::*;
use super::adjacency_list::{LinkedGraph, VertexIndex, targets};
use super::path::{Path, positions, fresh_marks};
use super::{
    is_edge, is_walk, adj_wf, acyclic, is_cycle, count_unmarked, lemma_mark_decreases, lemma_count_superset,
    lemma_ranking_acyclic,
};

verus! {

/// A cycle whose vertices, but for the last (the first again), are pairwise distinct.
pub open spec fn is_simple_cycle(adj: Seq<Seq<int>>, p: Seq<int>) -> bool {
    is_cycle(adj, p) && p.drop_last().no_duplicates()
}

/// The depth-first stack: each vertex after the first was reached from the one before it,
/// along an edge, and recorded that predecessor.
pub open spec fn stack_chain(adj: Seq<Seq<int>>, edge_to: Seq<usize>, stack: Seq<int>) -> bool {
    &&& forall|i: int| 0 <= i < stack.len() ==> 0 <= #[trigger] stack[i] < adj.len()
    &&& forall|i: int|
        0 < i < stack.len() ==> edge_to[#[trigger] stack[i]] == stack[i - 1] && is_edge(adj, stack[i - 1], stack[i])
}

/// The state of a search that has not found a cycle: finished vertices (marked, off the
/// stack) have finishing times below `clock`, and every edge from a finished vertex leads
/// to a finished vertex with an earlier finishing time.
pub open spec fn finished_ok(adj: Seq<Seq<int>>, marked: Seq<bool>, on_stack: Seq<bool>, fin: Seq<int>, clock: int) -> bool {
    &&& fin.len() == adj.len()
    &&& forall|u: int| 0 <= u < adj.len() && marked[u] && !on_stack[u] ==> #[trigger] fin[u] < clock
    &&& forall|u: int, v: int|
        0 <= u < adj.len() && marked[u] && !on_stack[u] && #[trigger] is_edge(adj, u, v) ==> 0 <= v < adj.len()
            && marked[v] && !on_stack[v] && fin[v] < fin[u]
}

/// The cycle made of the edge `cur -> top` and the stack from `top` down to `cur`.
fn cycle_path(edge_to: &Vec<usize>, cur: usize, top: usize, Ghost(adj): Ghost<Seq<Seq<int>>>, Ghost(stack): Ghost<Seq<int>>) -> (p: Path)
    requires
        edge_to@.len() == adj.len(),
        stack_chain(adj, edge_to@, stack),
        stack.len() > 0,
        stack.last() == cur,
        stack.contains(top as int),
        stack.no_duplicates(),
        is_edge(adj, cur as int, top as int),
    ensures
        is_simple_cycle(adj, p.vertices()),
        p.vertices()[0] == cur,
{
    let ghost j = choose|j: int| 0 <= j < stack.len() && stack[j] == top;
    let mut chain: Vec<VertexIndex> = Vec::new();
    let mut mid = cur;
    let ghost mut i: int = stack.len() - 1;
    while mid != top
        invariant
            edge_to@.len() == adj.len(),
            stack_chain(adj, edge_to@, stack),
            0 <= j <= i < stack.len(),
            stack[j] == top,
            stack[i] == mid,
            is_edge(adj, cur as int, top as int),
            stack.last() == cur,
            chain@.len() == 0 ==> mid == cur,
            chain@.len() > 0 ==> is_walk(adj, seq![mid as int] + positions(chain@).reverse())
                && positions(chain@).reverse().last() == cur,
            chain@.len() == stack.len() - 1 - i,
            forall|k: int| 0 <= k < chain@.len() ==> (#[trigger] chain@[k]).idx == stack[stack.len() - 1 - k],
        decreases i,
    {
        let ghost old_chain = chain@;
        let ghost m = mid as int;
        chain.push(VertexIndex { idx: mid });
        proof {
            assert(i != j);
            assert(i > 0);
            assert(edge_to@[stack[i]] == stack[i - 1] && is_edge(adj, stack[i - 1], stack[i]));
        }
        mid = edge_to[mid];
        proof {
            i = i - 1;
            let w = seq![mid as int] + positions(chain@).reverse();
            assert(positions(chain@) =~= positions(old_chain).push(m));
            assert(positions(chain@).reverse() =~= seq![m] + positions(old_chain).reverse());
            assert(is_edge(adj, mid as int, m));
            if old_chain.len() > 0 {
                let w0 = seq![m] + positions(old_chain).reverse();
                assert(w =~= seq![mid as int] + w0);
                assert forall|k: int| 0 <= k < w.len() - 1 implies #[trigger] is_edge(adj, w[k], w[k + 1]) by {
                    if k > 0 {
                        assert(w[k] == w0[k - 1] && w[k + 1] == w0[k]);
                        assert(is_edge(adj, w0[k - 1], w0[k - 1 + 1]));
                    }
                }
                assert forall|k: int| 0 <= k < w.len() implies 0 <= #[trigger] w[k] < adj.len() by {
                    if k > 0 {
                        assert(w[k] == w0[k - 1]);
                    }
                }
            } else {
                assert(w =~= seq![mid as int, m]);
                assert forall|k: int| 0 <= k < w.len() - 1 implies #[trigger] is_edge(adj, w[k], w[k + 1]) by {
                }
            }
        }
    }
    let ghost body = chain@;
    chain.push(VertexIndex { idx: top });
    chain.push(VertexIndex { idx: cur });
    let p = Path { stack: chain };
    proof {
        let inner = if body.len() == 0 {
            seq![top as int]
        } else {
            seq![top as int] + positions(body).reverse()
        };
        assert(positions(p.stack@) =~= positions(body).push(top as int).push(cur as int));
        assert(p.vertices() =~= seq![cur as int] + inner) by {
            let b = positions(body);
            assert(b.push(top as int).reverse() =~= seq![top as int] + b.reverse());
            assert(b.push(top as int).push(cur as int).reverse() =~= seq![cur as int] + b.push(top as int).reverse());
        }
        if body.len() == 0 {
            assert(top == cur);
        }
        assert(i == j) by {
            if i != j {
                assert(stack[i] == stack[j]);
            }
        }
        let n = stack.len();
        let w0 = p.vertices();
        assert forall|k: int| 1 <= k < w0.len() implies #[trigger] w0[k] == stack[j + k - 1] by {
            assert(w0[k] == inner[k - 1]);
            if k > 1 {
                let b = positions(body);
                assert(inner[k - 1] == b.reverse()[k - 2]);
                assert(b.reverse()[k - 2] == b[b.len() - (k - 1)]);
                assert(body[b.len() - (k - 1)].idx == stack[n - 1 - (b.len() - (k - 1))]);
            }
        }
        assert(w0.len() == body.len() + 2);
        let dl = w0.drop_last();
        assert forall|a: int, b: int| 0 <= a < dl.len() && 0 <= b < dl.len() && a != b implies dl[a] != dl[b] by {
            if a == 0 {
                assert(dl[b] == w0[b]);
                assert(w0[b] == stack[j + b - 1]);
                assert(stack[n - 1] == cur);
            } else if b == 0 {
                assert(dl[a] == w0[a]);
                assert(w0[a] == stack[j + a - 1]);
                assert(stack[n - 1] == cur);
            } else {
                assert(dl[a] == w0[a]);
                assert(dl[b] == w0[b]);
                assert(w0[a] == stack[j + a - 1]);
                assert(w0[b] == stack[j + b - 1]);
            }
        }
        assert(is_walk(adj, inner));
        assert(inner[0] == top);
        assert(inner.last() == cur);
        let w = p.vertices();
        assert forall|k: int| 0 <= k < w.len() - 1 implies #[trigger] is_edge(adj, w[k], w[k + 1]) by {
            if k > 0 {
                assert(w[k] == inner[k - 1] && w[k + 1] == inner[k]);
                assert(is_edge(adj, inner[k - 1], inner[k - 1 + 1]));
            }
        }
        assert forall|k: int| 0 <= k < w.len() implies 0 <= #[trigger] w[k] < adj.len() by {
            if k > 0 {
                assert(w[k] == inner[k - 1]);
            }
        }
    }
    p
}

/// Taking a vertex whose successors are all finished off the search stack keeps the
/// finishing order consistent, with the vertex finishing last.
proof fn lemma_finish_src(
    adj: Seq<Seq<int>>,
    marked: Seq<bool>,
    on_entry: Seq<bool>,
    on_cur: Seq<bool>,
    on_new: Seq<bool>,
    fin: Seq<int>,
    clock: int,
    stack: Seq<int>,
    inner: Seq<int>,
    src: int,
)
    requires
        adj_wf(adj),
        0 <= src < adj.len(),
        marked.len() == adj.len(),
        on_entry.len() == adj.len(),
        on_cur.len() == adj.len(),
        on_new == on_cur.update(src, false),
        inner == stack.push(src),
        !stack.contains(src),
        forall|v: int| 0 <= v < adj.len() ==> (on_cur[v] <==> inner.contains(v)),
        forall|v: int| 0 <= v < adj.len() ==> (on_entry[v] <==> stack.contains(v)),
        finished_ok(adj, marked, on_cur, fin, clock),
        marked[src],
        forall|j: int| 0 <= j < adj[src].len() ==> marked[#[trigger] adj[src][j]] && !on_cur[adj[src][j]] && fin[adj[src][j]] < clock,
    ensures
        on_new == on_entry,
        finished_ok(adj, marked, on_new, fin.update(src, clock), clock + 1),
{
    assert(inner[stack.len() as int] == src);
    assert(on_cur[src]);
    assert forall|v: int| 0 <= v < adj.len() implies on_new[v] == on_entry[v] by {
        if v == src {
        } else if stack.contains(v) {
            let i = choose|i: int| 0 <= i < stack.len() && stack[i] == v;
            assert(inner[i] == v);
        } else if inner.contains(v) {
            let i = choose|i: int| 0 <= i < inner.len() && inner[i] == v;
            if i < stack.len() {
                assert(stack[i] == v);
            }
        }
    }
    assert(on_new =~= on_entry);
    let f3 = fin.update(src, clock);
    assert forall|u: int, v: int|
        0 <= u < adj.len() && marked[u] && !on_new[u] && #[trigger] is_edge(adj, u, v) implies 0 <= v < adj.len()
            && marked[v] && !on_new[v] && f3[v] < f3[u] by {
        if u == src {
            let j = choose|j: int| 0 <= j < adj[u].len() && adj[u][j] == v;
            assert(marked[adj[src][j]]);
        } else {
            assert(on_cur[u] == on_new[u]);
        }
    }
}

/// One directed cycle of a graph, if it has any.
pub struct Cycle {
    cycle: Option<Path>,
    adj: Ghost<Seq<Seq<int>>>,
}

impl Cycle {
    /// The adjacency lists of the graph searched.
    pub closed spec fn spec_adj(&self) -> Seq<Seq<int>> {
        self.adj@
    }

    /// The cycle found, as a sequence of vertices, if one was found.
    pub closed spec fn spec_cycle(&self) -> Option<Seq<int>> {
        match self.cycle {
            Some(p) => Some(p.vertices()),
            None => None,
        }
    }

    #[verifier::rlimit(100)]
    /// Depth-first search from `src` that stops at the first edge back to a vertex on the
    /// search stack and records the cycle it closes.
    fn dfs<V, E>(
        graph: &LinkedGraph<V, E>,
        marked: &mut Vec<bool>,
        edge_to: &mut Vec<usize>,
        on_stack: &mut Vec<bool>,
        cycle: &mut Option<Path>,
        src: usize,
        Ghost(stack): Ghost<Seq<int>>,
        Ghost(fin): Ghost<Seq<int>>,
        Ghost(clock): Ghost<int>,
    ) -> (r: (Ghost<Seq<int>>, Ghost<int>))
        requires
            graph.wf(),
            old(marked)@.len() == graph.adj().len(),
            old(edge_to)@.len() == graph.adj().len(),
            old(on_stack)@.len() == graph.adj().len(),
            src < graph.adj().len(),
            !old(marked)@[src as int],
            *old(cycle) is None,
            stack_chain(graph.adj(), old(edge_to)@, stack),
            forall|v: int| 0 <= v < graph.adj().len() ==> (old(on_stack)@[v] <==> stack.contains(v)),
            forall|i: int| 0 <= i < stack.len() ==> old(marked)@[#[trigger] stack[i]],
            stack.no_duplicates(),
            stack.len() > 0 ==> old(edge_to)@[src as int] == stack.last() && is_edge(graph.adj(), stack.last(), src as int),
            finished_ok(graph.adj(), old(marked)@, old(on_stack)@, fin, clock),
        ensures
            final(marked)@.len() == graph.adj().len(),
            final(edge_to)@.len() == graph.adj().len(),
            final(on_stack)@.len() == graph.adj().len(),
            forall|v: int| 0 <= v < graph.adj().len() && old(marked)@[v] ==> #[trigger] final(marked)@[v],
            *final(cycle) matches Some(p) ==> is_simple_cycle(graph.adj(), p.vertices()),
            *final(cycle) is None ==> {
                &&& final(marked)@[src as int]
                &&& final(on_stack)@ == old(on_stack)@
                &&& stack_chain(graph.adj(), final(edge_to)@, stack)
                &&& forall|i: int| 0 <= i < stack.len() ==> final(edge_to)@[#[trigger] stack[i]] == old(edge_to)@[stack[i]]
                &&& finished_ok(graph.adj(), final(marked)@, final(on_stack)@, r.0@, r.1@)
                &&& r.1@ >= clock
            },
        decreases count_unmarked(old(marked)@),
    {
        let ghost adj = graph.adj();
        let ghost entry = marked@;
        proof {
            graph.lemma_adj_stored();
            lemma_mark_decreases(marked@, src as int);
        }
        on_stack.set(src, true);
        marked.set(src, true);
        let ghost inner = stack.push(src as int);
        proof {
            assert forall|a: int, b: int| 0 <= a < inner.len() && 0 <= b < inner.len() && a != b implies inner[a] != inner[b] by {
                if a < stack.len() && b < stack.len() {
                    assert(stack[a] != stack[b]);
                } else if a < stack.len() {
                    assert(old(marked)@[stack[a]]);
                } else {
                    assert(old(marked)@[stack[b]]);
                }
            }
        }
        let ghost clock_in = clock;
        let ghost mut fin = fin;
        let ghost mut clock = clock;
        proof {
            assert forall|i: int| 0 < i < inner.len() implies edge_to@[#[trigger] inner[i]] == inner[i - 1] && is_edge(adj, inner[i - 1], inner[i]) by {
                if i < stack.len() {
                    assert(inner[i] == stack[i] && inner[i - 1] == stack[i - 1]);
                }
            }
            assert forall|v: int| 0 <= v < adj.len() implies (on_stack@[v] <==> inner.contains(v)) by {
                if v == src {
                    assert(inner[stack.len() as int] == v);
                } else if on_stack@[v] {
                    assert(old(on_stack)@[v]);
                    assert(stack.contains(v));
                    let i = choose|i: int| 0 <= i < stack.len() && stack[i] == v;
                    assert(inner[i] == v);
                } else if inner.contains(v) {
                    let i = choose|i: int| 0 <= i < inner.len() && inner[i] == v;
                    assert(stack[i] == v);
                    assert(stack.contains(v));
                    assert(old(on_stack)@[v]);
                    assert(on_stack@[v]);
                }
            }
        }
        let outs = &graph.vertexs[src].outs;
        assert(adj[src as int] == targets(outs@));
        let mut k: usize = 0;
        while k < outs.len() && cycle.is_none()
            invariant
                graph.wf(),
                adj == graph.adj(),
                adj_wf(adj),
                graph.vertexs@.len() == adj.len(),
                src < adj.len(),
                *outs == graph.vertexs@[src as int].outs,
                adj[src as int] == targets(outs@),
                k <= outs@.len(),
                marked@.len() == adj.len(),
                edge_to@.len() == adj.len(),
                on_stack@.len() == adj.len(),
                entry == old(marked)@,
                forall|v: int| 0 <= v < adj.len() && entry[v] ==> #[trigger] marked@[v],
                count_unmarked(marked@) < count_unmarked(entry),
                stack_chain(adj, old(edge_to)@, stack),
                forall|i: int| 0 <= i < stack.len() ==> entry[#[trigger] stack[i]],
                inner.no_duplicates(),
                *cycle is None ==> {
                    &&& marked@[src as int]
                    &&& inner == stack.push(src as int)
                    &&& stack_chain(adj, edge_to@, inner)
                    &&& forall|i: int| 0 <= i < stack.len() ==> edge_to@[#[trigger] stack[i]] == old(edge_to)@[stack[i]]
                    &&& forall|v: int| 0 <= v < adj.len() ==> (on_stack@[v] <==> inner.contains(v))
                    &&& forall|i: int| 0 <= i < inner.len() ==> marked@[#[trigger] inner[i]]
                    &&& finished_ok(adj, marked@, on_stack@, fin, clock)
                    &&& clock >= clock_in
                    &&& forall|j: int| 0 <= j < k ==> marked@[#[trigger] adj[src as int][j]] && !on_stack@[adj[src as int][j]]
                        && fin[adj[src as int][j]] < clock
                },
                *cycle matches Some(p) ==> is_simple_cycle(adj, p.vertices()),
            decreases outs@.len() - k,
        {
            let dst = outs[k].to.idx;
            assert(dst == adj[src as int][k as int]);
            assert(adj[src as int].contains(dst as int));
            assert(is_edge(adj, src as int, dst as int));
            if !marked[dst] {
                let ghost before = marked@;
                edge_to.set(dst, src);
                proof {
                    assert(!inner.contains(dst as int));
                    assert forall|i: int| 0 < i < inner.len() implies edge_to@[#[trigger] inner[i]] == inner[i - 1] && is_edge(adj, inner[i - 1], inner[i]) by {
                        assert(inner[i] != dst);
                    }
                    assert forall|i: int| 0 <= i < inner.len() implies #[trigger] inner[i] < adj.len() by {
                    }
                }
                let (Ghost(f2), Ghost(c2)) = Self::dfs(graph, marked, edge_to, on_stack, cycle, dst, Ghost(inner), Ghost(fin), Ghost(clock));
                proof {
                    lemma_count_superset(before, marked@);
                    if *cycle is None {
                        fin = f2;
                        clock = c2;
                        assert forall|i: int| 0 <= i < stack.len() implies edge_to@[#[trigger] stack[i]] == old(edge_to)@[stack[i]] by {
                            assert(inner[i] == stack[i]);
                        }
                        assert(!on_stack@[dst as int]);
                    }
                }
            } else if on_stack[dst] {
                proof {
                    assert(inner.contains(dst as int));
                }
                let p = cycle_path(edge_to, src, dst, Ghost(adj), Ghost(inner));
                *cycle = Some(p);
            } else {
            }
            k = k + 1;
        }
        if cycle.is_none() {
            let ghost cur_on = on_stack@;
            on_stack.set(src, false);
            proof {
                assert(!stack.contains(src as int)) by {
                    if stack.contains(src as int) {
                        let i = choose|i: int| 0 <= i < stack.len() && stack[i] == src;
                        assert(old(marked)@[stack[i]]);
                    }
                }
                lemma_finish_src(adj, marked@, old(on_stack)@, cur_on, on_stack@, fin, clock, stack, inner, src as int);
                fin = fin.update(src as int, clock);
                clock = clock + 1;
            }
        }
        (Ghost(fin), Ghost(clock))
    }

    /// Searches `graph` for a cycle.
    pub fn new<V, E>(graph: &LinkedGraph<V, E>) -> (r: Self)
        requires
            graph.wf(),
        ensures
            r.spec_adj() == graph.adj(),
            r.spec_cycle() matches Some(c) ==> is_simple_cycle(graph.adj(), c),
            r.spec_cycle() is None ==> acyclic(graph.adj()),
    {
        let ghost adj = graph.adj();
        proof {
            graph.lemma_adj_stored();
        }
        let n = graph.vertex_num();
        let (mut marked, mut edge_to) = fresh_marks(n);
        let (mut on_stack, _) = fresh_marks(n);
        let mut cycle: Option<Path> = None;
        let ghost mut fin: Seq<int> = Seq::new(n as nat, |i: int| 0);
        let ghost mut clock: int = 0;
        let mut src: usize = 0;
        while src < n
            invariant
                graph.wf(),
                adj == graph.adj(),
                n == adj.len(),
                src <= n,
                marked@.len() == n,
                edge_to@.len() == n,
                on_stack@.len() == n,
                cycle matches Some(p) ==> is_simple_cycle(adj, p.vertices()),
                cycle is None ==> {
                    &&& forall|v: int| 0 <= v < src ==> #[trigger] marked@[v]
                    &&& forall|v: int| 0 <= v < n ==> !#[trigger] on_stack@[v]
                    &&& finished_ok(adj, marked@, on_stack@, fin, clock)
                },
            decreases n - src,
        {
            if !marked[src] && cycle.is_none() {
                proof {
                    let stack = Seq::<int>::empty();
                    assert forall|v: int| 0 <= v < adj.len() implies (on_stack@[v] <==> stack.contains(v)) by {
                    }
                }
                let (Ghost(f2), Ghost(c2)) = Self::dfs(graph, &mut marked, &mut edge_to, &mut on_stack, &mut cycle, src, Ghost(Seq::empty()), Ghost(fin), Ghost(clock));
                proof {
                    if cycle is None {
                        fin = f2;
                        clock = c2;
                        assert forall|v: int| 0 <= v < n implies !#[trigger] on_stack@[v] by {
                        }
                    }
                }
            }
            src = src + 1;
        }
        proof {
            if cycle is None {
                assert forall|u: int, v: int| #[trigger] is_edge(adj, u, v) implies 0 <= v < adj.len() && fin[v] < fin[u] by {
                    assert(marked@[u]);
                    assert(!on_stack@[u]);
                }
                lemma_ranking_acyclic(adj, fin);
            }
        }
        Cycle { cycle, adj: Ghost(adj) }
    }

    /// Whether a cycle was found.
    pub fn has_cycle(&self) -> (b: bool)
        ensures
            b == self.spec_cycle() is Some,
    {
        self.cycle.is_some()
    }

    /// A copy of the cycle found, if any.
    pub fn path(&self) -> (r: Option<Path>)
        ensures
            match r {
                Some(p) => self.spec_cycle() == Some(p.vertices()),
                None => self.spec_cycle() is None,
            },
    {
        match &self.cycle {
            Some(p) => Some(p.duplicate()),
            None => None,
        }
    }
}

impl<V, E> LinkedGraph<V, E> {
    /// A cycle of the graph, or `None` when the graph has none.
    pub fn find_one_cycle(&self) -> (r: Option<Path>)
        requires
            self.wf(),
        ensures
            r matches Some(p) ==> is_simple_cycle(self.adj(), p.vertices()),
            r is None ==> acyclic(self.adj()),
    {
        Cycle::new(self).path()
    }
}

} // verus!
