//! A directed graph stored as a vector of vertices, each with its list of outgoing edges.

use vstd::prelude::*;
use super::{Empty, adj_wf};

verus! {

/// The key of a vertex of a graph.
#[derive(Debug, Copy, Clone, PartialEq, Eq, Hash, Structural)]
pub struct VertexIndex {
    /// The position of the vertex in its graph.
    pub idx: usize,
}

impl VertexIndex {
    /// The position of the vertex in its graph.
    pub open spec fn spec_idx(&self) -> int {
        self.idx as int
    }

    /// The position of the vertex in its graph.
    pub fn index(&self) -> (r: usize)
        ensures
            r == self.spec_idx(),
    {
        self.idx
    }
}

/// An edge: its value and the vertex it leads to.
pub struct Edge<E> {
    pub elem: E,
    pub to: VertexIndex,
}

/// A vertex: its value and its outgoing edges, the most recently added first.
pub struct Vertex<V, E> {
    pub elem: V,
    pub outs: Vec<Edge<E>>,
}

/// A directed graph as adjacency lists.
pub struct LinkedGraph<V, E> {
    pub(crate) vertexs: Vec<Vertex<V, E>>,
}

/// The targets of a list of edges, in order.
pub open spec fn targets<E>(outs: Seq<Edge<E>>) -> Seq<int> {
    outs.map_values(|e: Edge<E>| e.to.idx as int)
}

/// The values of a list of edges, in order.
pub open spec fn edge_values<E>(outs: Seq<Edge<E>>) -> Seq<E> {
    outs.map_values(|e: Edge<E>| e.elem)
}

impl<V, E> LinkedGraph<V, E> {
    /// The adjacency lists: for each vertex, the targets of its edges in iteration order.
    pub closed spec fn adj(&self) -> Seq<Seq<int>> {
        Seq::new(self.vertexs@.len(), |u: int| targets(self.vertexs@[u].outs@))
    }

    /// For each vertex, the values of its edges in iteration order.
    pub closed spec fn edge_elems(&self) -> Seq<Seq<E>> {
        Seq::new(self.vertexs@.len(), |u: int| edge_values(self.vertexs@[u].outs@))
    }

    /// The values of the vertices.
    pub closed spec fn values(&self) -> Seq<V> {
        self.vertexs@.map_values(|v: Vertex<V, E>| v.elem)
    }

    /// Every edge leads to a vertex of the graph.
    pub open spec fn wf(&self) -> bool {
        adj_wf(self.adj())
    }

    /// Whether every edge leads to a vertex of the graph.
    pub fn is_well_formed(&self) -> (b: bool)
        ensures
            b == self.wf(),
    {
        proof {
            self.lemma_adj_stored();
        }
        let n = self.vertexs.len();
        let mut u: usize = 0;
        while u < n
            invariant
                n == self.vertexs@.len(),
                self.adj().len() == n,
                u <= n,
                forall|w: int| 0 <= w < self.vertexs@.len() ==> #[trigger] self.adj()[w] == targets(self.vertexs@[w].outs@),
                forall|a: int, k: int| 0 <= a < u && 0 <= k < self.adj()[a].len() ==> 0 <= #[trigger] self.adj()[a][k] < n,
            decreases n - u,
        {
            let outs = &self.vertexs[u].outs;
            let mut k: usize = 0;
            while k < outs.len()
                invariant
                    n == self.vertexs@.len(),
                    self.adj().len() == n,
                    u < n,
                    *outs == self.vertexs@[u as int].outs,
                    self.adj()[u as int] == targets(outs@),
                    k <= outs@.len(),
                    forall|j: int| 0 <= j < k ==> 0 <= #[trigger] self.adj()[u as int][j] < n,
                decreases outs@.len() - k,
            {
                if outs[k].to.idx >= n {
                    proof {
                        assert(self.adj()[u as int][k as int] == outs@[k as int].to.idx);
                    }
                    return false;
                }
                k = k + 1;
            }
            u = u + 1;
        }
        true
    }

    /// Facts tying the models together.
    pub proof fn lemma_models(&self)
        ensures
            self.adj().len() == self.values().len(),
            self.edge_elems().len() == self.values().len(),
            forall|u: int| 0 <= u < self.adj().len() ==> #[trigger] self.adj()[u].len() == self.edge_elems()[u].len(),
    {
    }

    /// The adjacency model read off the stored vertices.
    pub(crate) proof fn lemma_adj_stored(&self)
        ensures
            self.adj().len() == self.vertexs@.len(),
            self.values().len() == self.vertexs@.len(),
            forall|u: int| 0 <= u < self.vertexs@.len() ==> #[trigger] self.adj()[u] == targets(self.vertexs@[u].outs@),
            forall|u: int| 0 <= u < self.vertexs@.len() ==> #[trigger] self.values()[u] == self.vertexs@[u].elem,
    {
    }

    /// Creates a graph with no vertex.
    pub fn new() -> (g: Self)
        ensures
            g.adj() == Seq::<Seq<int>>::empty(),
            g.values() == Seq::<V>::empty(),
            g.wf(),
    {
        let g = LinkedGraph { vertexs: Vec::new() };
        assert(g.adj() =~= Seq::<Seq<int>>::empty());
        assert(g.values() =~= Seq::<V>::empty());
        g
    }

    /// Adds a vertex without edges and returns its key.
    pub fn push_vertex(&mut self, elem: V) -> (k: VertexIndex)
        requires
            old(self).values().len() < usize::MAX,
        ensures
            k.spec_idx() == old(self).values().len(),
            final(self).values() == old(self).values().push(elem),
            final(self).adj() == old(self).adj().push(Seq::<int>::empty()),
            final(self).edge_elems() == old(self).edge_elems().push(Seq::<E>::empty()),
            old(self).wf() ==> final(self).wf(),
    {
        self.vertexs.push(Vertex { elem, outs: Vec::new() });
        let k = VertexIndex { idx: self.vertexs.len() - 1 };
        proof {
            assert(self.values() =~= old(self).values().push(elem));
            assert(self.adj() =~= old(self).adj().push(Seq::<int>::empty())) by {
                assert(targets(Seq::<Edge<E>>::empty()) =~= Seq::<int>::empty());
            }
            assert(self.edge_elems() =~= old(self).edge_elems().push(Seq::<E>::empty())) by {
                assert(edge_values(Seq::<Edge<E>>::empty()) =~= Seq::<E>::empty());
            }
        }
        k
    }

    /// Number of vertices.
    pub fn vertex_num(&self) -> (n: usize)
        ensures
            n == self.values().len(),
    {
        self.vertexs.len()
    }

    /// Number of edges.
    pub fn edge_num(&self) -> (n: usize)
        requires
            sum_lens(self.adj(), self.adj().len() as int) <= usize::MAX,
        ensures
            n == sum_lens(self.adj(), self.adj().len() as int),
    {
        let mut total: usize = 0;
        let mut i: usize = 0;
        while i < self.vertexs.len()
            invariant
                i <= self.vertexs@.len(),
                total == sum_lens(self.adj(), i as int),
                sum_lens(self.adj(), self.adj().len() as int) <= usize::MAX,
                self.adj().len() == self.vertexs@.len(),
            decreases self.vertexs@.len() - i,
        {
            proof {
                lemma_sum_lens_monotone(self.adj(), i + 1, self.adj().len() as int);
            }
            total = total + self.vertexs[i].outs.len();
            i = i + 1;
        }
        total
    }

    /// The value of a vertex, or `None` for a key that is not a vertex of this graph.
    pub fn get_vertex(&self, src: &VertexIndex) -> (r: Option<&V>)
        ensures
            src.spec_idx() < self.values().len() ==> r == Some(&self.values()[src.spec_idx()]),
            src.spec_idx() >= self.values().len() ==> r is None,
    {
        if src.idx < self.vertexs.len() {
            Some(&self.vertexs[src.idx].elem)
        } else {
            None
        }
    }

    /// A mutable reference to the value of a vertex, or `None` for a key that is not a
    /// vertex of this graph.
    pub fn get_vertex_mut(&mut self, src: &VertexIndex) -> (r: Option<&mut V>)
        ensures
            src.spec_idx() < old(self).values().len() ==> (r matches Some(x) && *x == old(self).values()[src.spec_idx()]
                && final(self).values() == old(self).values().update(src.spec_idx(), *final(x))),
            src.spec_idx() >= old(self).values().len() ==> r is None && final(self).values() == old(self).values(),
            final(self).adj() == old(self).adj(),
            final(self).edge_elems() == old(self).edge_elems(),
    {
        if src.idx < self.vertexs.len() {
            let v = &mut self.vertexs[src.idx];
            Some(&mut v.elem)
        } else {
            None
        }
    }

    /// Adds an edge from `src` to `dst` at the front of `src`'s list; gives the edge back
    /// as an error when `src` is not a vertex of this graph.
    pub fn add_edge(&mut self, src: &VertexIndex, dst: &VertexIndex, edge: E) -> (r: Result<Option<E>, E>)
        ensures
            src.spec_idx() < old(self).values().len() ==> r is Ok && r->Ok_0 is None && final(self).adj() == old(
                self,
            ).adj().update(src.spec_idx(), seq![dst.spec_idx()] + old(self).adj()[src.spec_idx()])
                && final(self).edge_elems() == old(self).edge_elems().update(
                src.spec_idx(),
                seq![edge] + old(self).edge_elems()[src.spec_idx()],
            ),
            src.spec_idx() >= old(self).values().len() ==> r == Err::<Option<E>, E>(edge) && final(self).adj()
                == old(self).adj() && final(self).edge_elems() == old(self).edge_elems(),
            final(self).values() == old(self).values(),
            old(self).wf() && dst.spec_idx() < old(self).values().len() ==> final(self).wf(),
    {
        proof {
            self.lemma_models();
        }
        if src.idx < self.vertexs.len() {
            let v = &mut self.vertexs[src.idx];
            v.outs.insert(0, Edge { elem: edge, to: *dst });
            proof {
                assert(self.values() =~= old(self).values());
                let s = src.spec_idx();
                assert(targets(self.vertexs@[s].outs@) =~= seq![dst.spec_idx()] + targets(old(self).vertexs@[s].outs@));
                assert(edge_values(self.vertexs@[s].outs@) =~= seq![edge] + edge_values(old(self).vertexs@[s].outs@));
                assert(self.adj() =~= old(self).adj().update(s, seq![dst.spec_idx()] + old(self).adj()[s]));
                assert(self.edge_elems() =~= old(self).edge_elems().update(s, seq![edge] + old(self).edge_elems()[s]));
            }
            Ok(None)
        } else {
            Err(edge)
        }
    }

    /// Number of edges leaving `src` (zero for a key that is not a vertex of this graph).
    pub fn degree(&self, src: &VertexIndex) -> (d: usize)
        ensures
            src.spec_idx() < self.adj().len() ==> d == self.adj()[src.spec_idx()].len(),
            src.spec_idx() >= self.adj().len() ==> d == 0,
    {
        if src.idx < self.vertexs.len() {
            self.vertexs[src.idx].outs.len()
        } else {
            0
        }
    }

    /// The largest number of edges leaving one vertex (zero for a graph without vertices).
    pub fn max_degree(&self) -> (d: usize)
        ensures
            forall|u: int| 0 <= u < self.adj().len() ==> #[trigger] self.adj()[u].len() <= d,
            self.adj().len() == 0 ==> d == 0,
            self.adj().len() > 0 ==> exists|u: int| 0 <= u < self.adj().len() && #[trigger] self.adj()[u].len() == d,
    {
        let mut best: usize = 0;
        let mut i: usize = 0;
        while i < self.vertexs.len()
            invariant
                i <= self.vertexs@.len(),
                self.adj().len() == self.vertexs@.len(),
                forall|u: int| 0 <= u < i ==> #[trigger] self.adj()[u].len() <= best,
                i == 0 ==> best == 0,
                i > 0 ==> exists|u: int| 0 <= u < i && #[trigger] self.adj()[u].len() == best,
            decreases self.vertexs@.len() - i,
        {
            let d = self.vertexs[i].outs.len();
            assert(self.adj()[i as int].len() == d);
            if d > best || i == 0 {
                best = d;
            }
            i = i + 1;
        }
        best
    }

    /// The key of every vertex, in order.
    pub fn vertexs(&self) -> (it: VIter)
        ensures
            it.spec_next() == 0,
            it.spec_len() == self.values().len(),
    {
        VIter { next: 0, len: self.vertexs.len() }
    }

    /// The edges leaving `src`, in order; none for a key that is not a vertex of this graph.
    pub fn adj_iter(&self, src: &VertexIndex) -> (it: Iter<'_, E>)
        ensures
            it.spec_pos() == 0,
            src.spec_idx() < self.adj().len() ==> it.spec_targets() == self.adj()[src.spec_idx()]
                && it.spec_values() == self.edge_elems()[src.spec_idx()],
            src.spec_idx() >= self.adj().len() ==> it.spec_targets().len() == 0,
    {
        if src.idx < self.vertexs.len() {
            Iter { edges: Some(&self.vertexs[src.idx].outs), pos: 0 }
        } else {
            Iter { edges: None, pos: 0 }
        }
    }

    /// A graph with the same vertices whose value is each vertex's own key, and the same
    /// edges, each list in reverse order.
    pub fn keys(&self) -> (g: LinkedGraph<VertexIndex, Empty>)
        ensures
            g.values().len() == self.values().len(),
            forall|u: int| 0 <= u < g.values().len() ==> #[trigger] g.values()[u].spec_idx() == u,
            g.adj().len() == self.adj().len(),
            forall|u: int| 0 <= u < g.adj().len() ==> #[trigger] g.adj()[u] == self.adj()[u].reverse(),
            self.wf() ==> g.wf(),
    {
        let mut g: LinkedGraph<VertexIndex, Empty> = LinkedGraph::new();
        let n = self.vertexs.len();
        let mut i: usize = 0;
        while i < n
            invariant
                i <= n,
                n == self.vertexs@.len(),
                g.values().len() == i,
                forall|u: int| 0 <= u < i ==> #[trigger] g.values()[u].spec_idx() == u,
                g.adj() == Seq::new(i as nat, |u: int| Seq::<int>::empty()),
            decreases n - i,
        {
            g.push_vertex(VertexIndex { idx: i });
            proof {
                assert(g.adj() =~= Seq::new((i + 1) as nat, |u: int| Seq::<int>::empty()));
            }
            i = i + 1;
        }
        let mut u: usize = 0;
        while u < n
            invariant
                u <= n,
                n == self.vertexs@.len(),
                self.adj().len() == n,
                g.values().len() == n,
                forall|w: int| 0 <= w < n ==> #[trigger] g.values()[w].spec_idx() == w,
                g.adj().len() == n,
                forall|w: int| 0 <= w < u ==> #[trigger] g.adj()[w] == self.adj()[w].reverse(),
                forall|w: int| u <= w < n ==> #[trigger] g.adj()[w] == Seq::<int>::empty(),
            decreases n - u,
        {
            let outs = &self.vertexs[u].outs;
            let mut k: usize = 0;
            while k < outs.len()
                invariant
                    u < n,
                    n == self.vertexs@.len(),
                    *outs == self.vertexs@[u as int].outs,
                    self.adj().len() == n,
                    k <= outs@.len(),
                    g.values().len() == n,
                    forall|w: int| 0 <= w < n ==> #[trigger] g.values()[w].spec_idx() == w,
                    g.adj().len() == n,
                    forall|w: int| 0 <= w < u ==> #[trigger] g.adj()[w] == self.adj()[w].reverse(),
                    forall|w: int| u < w < n ==> #[trigger] g.adj()[w] == Seq::<int>::empty(),
                    g.adj()[u as int] == self.adj()[u as int].take(k as int).reverse(),
                decreases outs@.len() - k,
            {
                let ghost before = g.adj();
                let src = VertexIndex { idx: u };
                let dst = outs[k].to;
                let _ = g.add_edge(&src, &dst, Empty);
                proof {
                    let s = self.adj()[u as int];
                    assert(s[k as int] == dst.spec_idx());
                    assert(s.take(k + 1).reverse() =~= seq![dst.spec_idx()] + s.take(k as int).reverse());
                }
                k = k + 1;
            }
            proof {
                assert(self.adj()[u as int].take(outs@.len() as int) =~= self.adj()[u as int]);
            }
            u = u + 1;
        }
        proof {
            if self.wf() {
                assert forall|w: int, k: int| 0 <= w < g.adj().len() && 0 <= k < g.adj()[w].len() implies 0 <= #[trigger] g.adj()[w][k] < g.adj().len() by {
                    assert(g.adj()[w][k] == self.adj()[w][self.adj()[w].len() - 1 - k]);
                }
            }
        }
        g
    }
}


impl<V: Clone, E: Clone> LinkedGraph<V, E> {
    /// Adds an edge from `src` to `dst` and one from `dst` to `src`, each with the value
    /// `edge` (the first one with a clone of it).
    pub fn add_undirected_edge(&mut self, src: &VertexIndex, dst: &VertexIndex, edge: E)
        requires
            src.spec_idx() < old(self).values().len(),
            dst.spec_idx() < old(self).values().len(),
        ensures
            ({
                let s = src.spec_idx();
                let d = dst.spec_idx();
                let a1 = old(self).adj().update(s, seq![d] + old(self).adj()[s]);
                final(self).adj() == a1.update(d, seq![s] + a1[d])
            }),
            exists|c: E|
                #[trigger] cloned(edge, c) && final(self).edge_elems() == ({
                    let e1 = old(self).edge_elems().update(
                        src.spec_idx(),
                        seq![c] + old(self).edge_elems()[src.spec_idx()],
                    );
                    e1.update(dst.spec_idx(), seq![edge] + e1[dst.spec_idx()])
                }),
            final(self).values() == old(self).values(),
            old(self).wf() ==> final(self).wf(),
    {
        let ghost e0 = edge;
        let c = edge.clone();
        let ghost c0 = c;
        let _ = self.add_edge(src, dst, c);
        let _ = self.add_edge(dst, src, edge);
        proof {
            let e1 = old(self).edge_elems().update(src.spec_idx(), seq![c0] + old(self).edge_elems()[src.spec_idx()]);
            assert(cloned(e0, c0) && self.edge_elems() == e1.update(dst.spec_idx(), seq![e0] + e1[dst.spec_idx()]));
            let n = self.adj().len();
            if old(self).wf() {
                assert forall|u: int, k: int| 0 <= u < n && 0 <= k < self.adj()[u].len() implies 0 <= #[trigger] self.adj()[u][k] < n by {
                    let s = src.spec_idx();
                    let d = dst.spec_idx();
                    let a1 = old(self).adj().update(s, seq![d] + old(self).adj()[s]);
                    if u == d {
                        if k > 0 {
                            assert(self.adj()[u][k] == a1[d][k - 1]);
                            if d == s && k == 1 {
                            } else if d == s {
                                assert(a1[d][k - 1] == old(self).adj()[s][k - 2]);
                            }
                        }
                    } else if u == s {
                        if k > 0 {
                            assert(self.adj()[u][k] == old(self).adj()[s][k - 1]);
                        }
                    }
                }
            }
        }
    }

    /// A graph with the same vertices (their values cloned) and every edge turned around,
    /// each with a clone of its value.
    pub fn reversed(&self) -> (g: Self)
        requires
            self.wf(),
        ensures
            g.wf(),
            g.values().len() == self.values().len(),
            forall|u: int| 0 <= u < g.values().len() ==> cloned(self.values()[u], #[trigger] g.values()[u]),
            g.adj().len() == self.adj().len(),
            forall|w: int| 0 <= w < g.adj().len() ==> #[trigger] g.adj()[w] == incoming(self.adj(), w, self.adj().len() as int).reverse(),
    {
        let mut g: LinkedGraph<V, E> = LinkedGraph::new();
        let n = self.vertexs.len();
        proof {
            self.lemma_adj_stored();
        }
        let mut i: usize = 0;
        while i < n
            invariant
                i <= n,
                n == self.vertexs@.len(),
                self.values().len() == n,
                g.values().len() == i,
                forall|u: int| 0 <= u < i ==> cloned(self.values()[u], #[trigger] g.values()[u]),
                g.adj() == Seq::new(i as nat, |u: int| Seq::<int>::empty()),
                forall|u: int| 0 <= u < n ==> #[trigger] self.values()[u] == self.vertexs@[u].elem,
            decreases n - i,
        {
            let v = self.vertexs[i].elem.clone();
            g.push_vertex(v);
            proof {
                assert(g.adj() =~= Seq::new((i + 1) as nat, |u: int| Seq::<int>::empty()));
            }
            i = i + 1;
        }
        let ghost adj = self.adj();
        proof {
            assert forall|w: int| 0 <= w < n implies #[trigger] g.adj()[w] == (incoming(adj, w, 0) + sources_in(adj[0].take(0), 0, w)).reverse() by {
                assert(adj[0].take(0) =~= Seq::<int>::empty());
                assert((incoming(adj, w, 0) + sources_in(adj[0].take(0), 0, w)).reverse() =~= Seq::<int>::empty());
            }
        }
        let mut u: usize = 0;
        while u < n
            invariant
                u <= n,
                n == self.vertexs@.len(),
                adj == self.adj(),
                adj.len() == n,
                adj_wf(adj),
                g.values().len() == n,
                forall|x: int| 0 <= x < n ==> cloned(self.values()[x], #[trigger] g.values()[x]),
                g.adj().len() == n,
                adj_wf(g.adj()),
                forall|w: int| 0 <= w < n ==> #[trigger] g.adj()[w] == incoming(adj, w, u as int).reverse(),
            decreases n - u,
        {
            let outs = &self.vertexs[u].outs;
            proof {
                assert forall|w: int| 0 <= w < n implies #[trigger] g.adj()[w] == (incoming(adj, w, u as int) + sources_in(adj[u as int].take(0), u as int, w)).reverse() by {
                    assert(adj[u as int].take(0) =~= Seq::<int>::empty());
                    assert(incoming(adj, w, u as int) + sources_in(adj[u as int].take(0), u as int, w) =~= incoming(adj, w, u as int));
                }
            }
            let mut k: usize = 0;
            while k < outs.len()
                invariant
                    u < n,
                    n == self.vertexs@.len(),
                    adj == self.adj(),
                    adj.len() == n,
                    adj_wf(adj),
                    *outs == self.vertexs@[u as int].outs,
                    adj[u as int] == targets(outs@),
                    k <= outs@.len(),
                    g.values().len() == n,
                    forall|x: int| 0 <= x < n ==> cloned(self.values()[x], #[trigger] g.values()[x]),
                    g.adj().len() == n,
                    adj_wf(g.adj()),
                    forall|w: int| 0 <= w < n ==> #[trigger] g.adj()[w] == (incoming(adj, w, u as int) + sources_in(adj[u as int].take(k as int), u as int, w)).reverse(),
                decreases outs@.len() - k,
            {
                let dst = outs[k].to;
                let e = outs[k].elem.clone();
                let ghost before = g.adj();
                let src = VertexIndex { idx: u };
                proof {
                    assert(adj[u as int][k as int] == dst.spec_idx());
                    assert(0 <= dst.spec_idx() < n);
                }
                let _ = g.add_edge(&dst, &src, e);
                proof {
                    let l = adj[u as int];
                    assert(l.take(k + 1).drop_last() =~= l.take(k as int));
                    assert(l.take(k + 1).last() == dst.spec_idx());
                    assert forall|w: int| 0 <= w < n implies #[trigger] g.adj()[w] == (incoming(adj, w, u as int) + sources_in(l.take(k + 1), u as int, w)).reverse() by {
                        let x = incoming(adj, w, u as int);
                        if w == dst.spec_idx() {
                            let y = sources_in(l.take(k as int), u as int, w);
                            assert(sources_in(l.take(k + 1), u as int, w) == y + seq![u as int]);
                            assert((x + (y + seq![u as int])).reverse() =~= seq![u as int] + (x + y).reverse());
                        } else {
                            assert(sources_in(l.take(k + 1), u as int, w) =~= sources_in(l.take(k as int), u as int, w));
                        }
                    }
                    assert forall|a: int, b: int| 0 <= a < n && 0 <= b < g.adj()[a].len() implies 0 <= #[trigger] g.adj()[a][b] < n by {
                        if a == dst.spec_idx() && b > 0 {
                            assert(g.adj()[a][b] == before[a][b - 1]);
                        }
                    }
                }
                k = k + 1;
            }
            proof {
                assert(adj[u as int].take(outs@.len() as int) =~= adj[u as int]);
                assert forall|w: int| 0 <= w < n implies #[trigger] g.adj()[w] == incoming(adj, w, u + 1).reverse() by {
                    assert(incoming(adj, w, u + 1) == incoming(adj, w, u as int) + sources_in(adj[u as int], u as int, w));
                }
            }
            u = u + 1;
        }
        g
    }
}

impl<V, E> Default for LinkedGraph<V, E> {
    fn default() -> (g: Self)
        ensures
            g.adj() == Seq::<Seq<int>>::empty(),
            g.values() == Seq::<V>::empty(),
            g.wf(),
    {
        LinkedGraph::new()
    }
}

/// The vertex `u` once for each entry of `list` equal to `w`.
pub open spec fn sources_in(list: Seq<int>, u: int, w: int) -> Seq<int>
    decreases list.len(),
{
    if list.len() == 0 {
        Seq::empty()
    } else {
        sources_in(list.drop_last(), u, w) + if list.last() == w {
            seq![u]
        } else {
            Seq::empty()
        }
    }
}

/// The sources of the edges into `w` from the first `n` vertices, once per edge, by source
/// and then by position in the source's list.
pub open spec fn incoming(adj: Seq<Seq<int>>, w: int, n: int) -> Seq<int>
    decreases n,
{
    if n <= 0 {
        Seq::empty()
    } else {
        incoming(adj, w, n - 1) + sources_in(adj[n - 1], n - 1, w)
    }
}

/// The list of sources of edges into `w` from one list holds `u` exactly when the list
/// holds `w`.
pub proof fn lemma_sources_in_contains(list: Seq<int>, u: int, w: int, x: int)
    ensures
        sources_in(list, u, w).contains(x) <==> (x == u && list.contains(w)),
    decreases list.len(),
{
    if list.len() > 0 {
        let front = list.drop_last();
        lemma_sources_in_contains(front, u, w, x);
        let tail = if list.last() == w {
            seq![u]
        } else {
            Seq::<int>::empty()
        };
        let all = sources_in(front, u, w) + tail;
        assert(sources_in(list, u, w) == all);
        if all.contains(x) {
            let i = choose|i: int| 0 <= i < all.len() && all[i] == x;
            if i < sources_in(front, u, w).len() {
                assert(sources_in(front, u, w)[i] == x);
                let j = choose|j: int| 0 <= j < front.len() && front[j] == w;
                assert(list[j] == w);
            } else {
                assert(list[list.len() - 1] == w);
            }
        }
        if x == u && list.contains(w) {
            let j = choose|j: int| 0 <= j < list.len() && list[j] == w;
            if j < list.len() - 1 {
                assert(front[j] == w);
                assert(sources_in(front, u, w).contains(x));
                let i = choose|i: int| 0 <= i < sources_in(front, u, w).len() && sources_in(front, u, w)[i] == x;
                assert(all[i] == x);
            } else {
                assert(all[sources_in(front, u, w).len() as int] == x);
            }
        }
    }
}

/// The sources of the edges into `w` from the first `n` vertices are those vertices whose
/// lists hold `w`.
pub proof fn lemma_incoming_contains(adj: Seq<Seq<int>>, w: int, n: int, u: int)
    requires
        0 <= n <= adj.len(),
    ensures
        incoming(adj, w, n).contains(u) <==> (0 <= u < n && adj[u].contains(w)),
    decreases n,
{
    if n > 0 {
        lemma_incoming_contains(adj, w, n - 1, u);
        lemma_sources_in_contains(adj[n - 1], n - 1, w, u);
        let a = incoming(adj, w, n - 1);
        let b = sources_in(adj[n - 1], n - 1, w);
        assert(incoming(adj, w, n) == a + b);
        if (a + b).contains(u) {
            let i = choose|i: int| 0 <= i < (a + b).len() && (a + b)[i] == u;
            if i < a.len() {
                assert(a[i] == u);
            } else {
                assert(b[i - a.len()] == u);
            }
        }
        if a.contains(u) {
            let i = choose|i: int| 0 <= i < a.len() && a[i] == u;
            assert((a + b)[i] == u);
        }
        if b.contains(u) {
            let i = choose|i: int| 0 <= i < b.len() && b[i] == u;
            assert((a + b)[a.len() + i] == u);
        }
    } else {
        assert(incoming(adj, w, n) =~= Seq::<int>::empty());
    }
}

/// Sum of the lengths of the first `n` lists.
pub open spec fn sum_lens(adj: Seq<Seq<int>>, n: int) -> int
    decreases n,
{
    if n <= 0 {
        0
    } else {
        sum_lens(adj, n - 1) + adj[n - 1].len()
    }
}

/// The running sum of lengths never decreases.
pub proof fn lemma_sum_lens_monotone(adj: Seq<Seq<int>>, i: int, j: int)
    requires
        0 <= i <= j,
    ensures
        sum_lens(adj, i) <= sum_lens(adj, j),
    decreases j - i,
{
    if i < j {
        lemma_sum_lens_monotone(adj, i, j - 1);
    }
}

/// Walks the vertex keys of a graph in order.
pub struct VIter {
    next: usize,
    len: usize,
}

impl VIter {
    /// Position of the next key.
    pub closed spec fn spec_next(&self) -> int {
        self.next as int
    }

    /// Number of vertices.
    pub closed spec fn spec_len(&self) -> int {
        self.len as int
    }

    /// Returns the next key, or `None` after the last vertex.
    pub fn next(&mut self) -> (r: Option<VertexIndex>)
        ensures
            final(self).spec_len() == old(self).spec_len(),
            old(self).spec_next() < old(self).spec_len() ==> (r matches Some(k) && k.spec_idx() == old(self).spec_next()
                && final(self).spec_next() == old(self).spec_next() + 1),
            old(self).spec_next() >= old(self).spec_len() ==> r is None && final(self).spec_next() == old(self).spec_next(),
    {
        if self.next < self.len {
            let k = VertexIndex { idx: self.next };
            self.next = self.next + 1;
            Some(k)
        } else {
            None
        }
    }
}

/// Walks the edges leaving one vertex, in order.
pub struct Iter<'a, E> {
    edges: Option<&'a Vec<Edge<E>>>,
    pos: usize,
}

impl<'a, E> Iter<'a, E> {
    /// Position of the next edge.
    pub closed spec fn spec_pos(&self) -> int {
        self.pos as int
    }

    /// Targets of the edges walked.
    pub closed spec fn spec_targets(&self) -> Seq<int> {
        match self.edges {
            Some(v) => targets(v@),
            None => Seq::empty(),
        }
    }

    /// Values of the edges walked.
    pub closed spec fn spec_values(&self) -> Seq<E> {
        match self.edges {
            Some(v) => edge_values(v@),
            None => Seq::empty(),
        }
    }

    /// Returns the target and value of the next edge, or `None` after the last one.
    pub fn next(&mut self) -> (r: Option<(VertexIndex, &'a E)>)
        ensures
            final(self).spec_targets() == old(self).spec_targets(),
            final(self).spec_values() == old(self).spec_values(),
            0 <= old(self).spec_pos() < old(self).spec_targets().len() ==> (r matches Some((k, e)) && k.spec_idx()
                == old(self).spec_targets()[old(self).spec_pos()] && *e == old(self).spec_values()[old(self).spec_pos()]
                && final(self).spec_pos() == old(self).spec_pos() + 1),
            !(0 <= old(self).spec_pos() < old(self).spec_targets().len()) ==> r is None && final(self).spec_pos()
                == old(self).spec_pos(),
    {
        match self.edges {
            Some(v) => {
                if self.pos < v.len() {
                    let e = &v[self.pos];
                    self.pos = self.pos + 1;
                    Some((e.to, &e.elem))
                } else {
                    None
                }
            },
            None => None,
        }
    }
}

} // verus!
