//! Depth-first orders of all the vertices of a graph, and topological order.

use vstd::prelude::*;
use super::adjacency_list::{LinkedGraph, VertexIndex, targets};
use super::path::{positions, fresh_marks};
use super::cycle::Cycle;
use super::{is_edge, is_walk, adj_wf, acyclic, is_cycle, count_unmarked, lemma_mark_decreases, lemma_count_superset, reachable, lemma_reachable_self, lemma_reachable_step, lemma_reachable_trans};

verus! {

/// Every vertex of `s` appears once, and all are vertices of a graph of `n` vertices.
pub open spec fn distinct_vertices(s: Seq<int>, n: int) -> bool {
    &&& forall|i: int| 0 <= i < s.len() ==> 0 <= #[trigger] s[i] < n
    &&& forall|i: int, j: int| 0 <= i < j < s.len() ==> s[i] != s[j]
}

/// Appending a new vertex to a list of distinct vertices keeps them distinct.
pub proof fn lemma_push_distinct(s: Seq<int>, x: int, n: int)
    requires
        distinct_vertices(s, n),
        !s.contains(x),
        0 <= x < n,
    ensures
        distinct_vertices(s.push(x), n),
        forall|v: int| #[trigger] s.push(x).contains(v) <==> (s.contains(v) || v == x),
{
    let t = s.push(x);
    assert forall|i: int, j: int| 0 <= i < j < t.len() implies t[i] != t[j] by {
        assert(t[i] == s[i]);
        if j < s.len() {
            assert(t[j] == s[j]);
        } else {
            assert(s[i] != x);
        }
    }
    assert forall|v: int| #[trigger] t.contains(v) <==> (s.contains(v) || v == x) by {
        if t.contains(v) {
            let i = choose|i: int| 0 <= i < t.len() && t[i] == v;
            if i < s.len() {
                assert(s[i] == v);
            }
        }
        if s.contains(v) {
            let i = choose|i: int| 0 <= i < s.len() && s[i] == v;
            assert(t[i] == v);
        }
        if v == x {
            assert(t[s.len() as int] == v);
        }
    }
}

/// Every successor of a vertex of `post` appears earlier in `post`.
pub open spec fn finishes_after_successors(adj: Seq<Seq<int>>, post: Seq<int>) -> bool {
    forall|i: int, v: int| 0 <= i < post.len() && #[trigger] is_edge(adj, post[i], v) ==> exists|j: int| 0 <= j < i && post[j] == v
}

/// Every edge goes from an earlier vertex of `order` to a later one.
pub open spec fn is_topological(adj: Seq<Seq<int>>, order: Seq<int>) -> bool {
    forall|i: int, v: int| 0 <= i < order.len() && #[trigger] is_edge(adj, order[i], v) ==> exists|j: int| i < j < order.len() && order[j] == v
}

/// A stack of vertices, each reached from the one before along an edge.
pub open spec fn edge_chain(adj: Seq<Seq<int>>, stack: Seq<int>) -> bool {
    &&& forall|i: int| 0 <= i < stack.len() ==> 0 <= #[trigger] stack[i] < adj.len()
    &&& forall|i: int| 0 < i < stack.len() ==> #[trigger] is_edge(adj, stack[i - 1], stack[i])
}

/// An edge from the top of a chain back into the chain closes a cycle.
pub proof fn lemma_back_edge_cycle(adj: Seq<Seq<int>>, stack: Seq<int>, j: int)
    requires
        edge_chain(adj, stack),
        0 <= j < stack.len(),
        is_edge(adj, stack.last(), stack[j]),
    ensures
        !acyclic(adj),
{
    let p = stack.subrange(j, stack.len() as int).push(stack[j]);
    assert forall|i: int| 0 <= i < p.len() - 1 implies #[trigger] is_edge(adj, p[i], p[i + 1]) by {
        if i < p.len() - 2 {
            assert(p[i] == stack[j + i] && p[i + 1] == stack[j + i + 1]);
            assert(is_edge(adj, stack[j + i + 1 - 1], stack[j + i + 1]));
        } else {
            assert(p[i] == stack.last());
        }
    }
    assert forall|i: int| 0 <= i < p.len() implies 0 <= #[trigger] p[i] < adj.len() by {
        if i < p.len() - 1 {
            assert(p[i] == stack[j + i]);
        }
    }
    assert(is_cycle(adj, p));
}

/// A finishing order in which every vertex finishes after its successors, reversed, is a
/// topological order.
pub proof fn lemma_reverse_post_topological(adj: Seq<Seq<int>>, post: Seq<int>)
    requires
        finishes_after_successors(adj, post),
    ensures
        is_topological(adj, post.reverse()),
{
    let r = post.reverse();
    assert forall|i: int, v: int| 0 <= i < r.len() && #[trigger] is_edge(adj, r[i], v) implies exists|j: int| i < j < r.len() && r[j] == v by {
        let a = post.len() - 1 - i;
        assert(r[i] == post[a]);
        assert(is_edge(adj, post[a], v));
        let b = choose|b: int| 0 <= b < a && post[b] == v;
        assert(r[post.len() - 1 - b] == v);
    }
}

/// Where `v` stands in `s`.
pub open spec fn index_in(s: Seq<int>, v: int) -> int {
    choose|i: int| 0 <= i < s.len() && s[i] == v
}

/// Whether no vertex of the walk `p` is among `s`.
pub open spec fn avoids(p: Seq<int>, s: Seq<int>) -> bool {
    forall|i: int| 0 <= i < p.len() ==> !s.contains(#[trigger] p[i])
}

/// Every finished vertex `d` finishes no earlier than each vertex it reaches by a walk
/// through vertices none of which was visited before `d`.
pub open spec fn finishes_over_later_walks(adj: Seq<Seq<int>>, pre: Seq<int>, post: Seq<int>) -> bool {
    forall|d: int, p: Seq<int>|
        #![trigger post.contains(d), is_walk(adj, p)]
        post.contains(d) && is_walk(adj, p) && p[0] == d && avoids(p, pre.take(index_in(pre, d))) ==> post.contains(
            p.last(),
        ) && index_in(post, p.last()) <= index_in(post, d)
}

/// Every finished vertex reaches each vertex visited after it and finished before it.
pub open spec fn nested_reachable(adj: Seq<Seq<int>>, pre: Seq<int>, post: Seq<int>) -> bool {
    forall|d: int, v: int|
        #![trigger post.contains(d), post.contains(v)]
        post.contains(d) && post.contains(v) && index_in(pre, d) < index_in(pre, v) && index_in(post, v) < index_in(
            post,
            d,
        ) ==> reachable(adj, d, v)
}

/// In a list without repeats, the vertex at position `i` stands at position `i`.
pub proof fn lemma_index_in(s: Seq<int>, i: int)
    requires
        forall|a: int, b: int| 0 <= a < b < s.len() ==> s[a] != s[b],
        0 <= i < s.len(),
    ensures
        s.contains(s[i]),
        index_in(s, s[i]) == i,
{
    assert(s.contains(s[i]));
    let j = index_in(s, s[i]);
    if j < i {
        assert(s[j] != s[i]);
    } else if i < j {
        assert(s[i] != s[j]);
    }
}

/// A walk from the vertex visited at position `p0`, through no vertex visited earlier,
/// stays among the vertices visited from position `p0` on, when each of them has all its
/// successors visited.
proof fn lemma_walk_in_block(adj: Seq<Seq<int>>, pre: Seq<int>, marked: Seq<bool>, p0: int, p: Seq<int>, i: int)
    requires
        marked.len() == adj.len(),
        forall|v: int| 0 <= v < adj.len() ==> (marked[v] <==> #[trigger] pre.contains(v)),
        forall|a: int, b: int| 0 <= a < b < pre.len() ==> pre[a] != pre[b],
        0 <= p0 < pre.len(),
        forall|k: int, w: int| p0 <= k < pre.len() && #[trigger] is_edge(adj, pre[k], w) ==> marked[w],
        is_walk(adj, p),
        p[0] == pre[p0],
        avoids(p, pre.take(p0)),
        0 <= i < p.len(),
    ensures
        pre.contains(p[i]),
        index_in(pre, p[i]) >= p0,
    decreases i,
{
    if i == 0 {
        lemma_index_in(pre, p0);
    } else {
        lemma_walk_in_block(adj, pre, marked, p0, p, i - 1);
        let k = index_in(pre, p[i - 1]);
        assert(is_edge(adj, p[i - 1], p[i - 1 + 1]));
        assert(pre[k] == p[i - 1]);
        assert(marked[p[i]]);
        assert(pre.contains(p[i]));
        let j = index_in(pre, p[i]);
        assert(!pre.take(p0).contains(p[i]));
        if j < p0 {
            assert(pre.take(p0)[j] == p[i]);
        }
    }
}

/// Finishing the root `src` of a search that visited the vertices from position `p0` on,
/// each reachable from `src` and with all its successors visited, keeps both properties of
/// finishing orders.
proof fn lemma_finish_src(
    adj: Seq<Seq<int>>,
    pre: Seq<int>,
    post: Seq<int>,
    marked: Seq<bool>,
    src: int,
    p0: int,
)
    requires
        marked.len() == adj.len(),
        forall|v: int| 0 <= v < adj.len() ==> (marked[v] <==> #[trigger] pre.contains(v)),
        forall|a: int, b: int| 0 <= a < b < pre.len() ==> pre[a] != pre[b],
        forall|a: int, b: int| 0 <= a < b < post.len() ==> post[a] != post[b],
        forall|i: int| 0 <= i < pre.len() ==> 0 <= #[trigger] pre[i] < adj.len(),
        0 <= p0 < pre.len(),
        pre[p0] == src,
        !post.contains(src),
        forall|i: int| p0 < i < pre.len() ==> post.contains(#[trigger] pre[i]),
        forall|k: int, w: int| p0 <= k < pre.len() && #[trigger] is_edge(adj, pre[k], w) ==> marked[w],
        forall|i: int| p0 <= i < pre.len() ==> reachable(adj, src, #[trigger] pre[i]),
        forall|v: int| post.contains(v) ==> pre.contains(v),
        finishes_over_later_walks(adj, pre, post),
        nested_reachable(adj, pre, post),
    ensures
        finishes_over_later_walks(adj, pre, post.push(src)),
        nested_reachable(adj, pre, post.push(src)),
{
    let t = post.push(src);
    assert forall|a: int, b: int| 0 <= a < b < t.len() implies t[a] != t[b] by {
        if b == post.len() {
            assert(t[a] == post[a]);
            assert(post.contains(post[a]));
        } else {
            assert(t[a] == post[a] && t[b] == post[b]);
        }
    }
    assert forall|v: int| post.contains(v) implies t.contains(v) && index_in(t, v) == index_in(post, v) by {
        let i = index_in(post, v);
        lemma_index_in(post, i);
        assert(t[i] == v);
        lemma_index_in(t, i);
    }
    lemma_index_in(t, post.len() as int);
    assert(t[post.len() as int] == src);
    lemma_index_in(pre, p0);
    assert forall|v: int| t.contains(v) implies post.contains(v) || v == src by {
        let i = choose|i: int| 0 <= i < t.len() && t[i] == v;
        if i < post.len() {
            assert(t[i] == post[i]);
        }
    }
    assert forall|d: int, p: Seq<int>|
        #![trigger t.contains(d), is_walk(adj, p)]
        t.contains(d) && is_walk(adj, p) && p[0] == d && avoids(p, pre.take(index_in(pre, d))) implies t.contains(
            p.last(),
        ) && index_in(t, p.last()) <= index_in(t, d) by {
        if d == src {
            lemma_walk_in_block(adj, pre, marked, p0, p, p.len() - 1);
            let v = p.last();
            let j = index_in(pre, v);
            if j > p0 {
                assert(post.contains(pre[j]));
            }
        } else {
            assert(post.contains(d));
        }
    }
    assert forall|d: int, v: int|
        #![trigger t.contains(d), t.contains(v)]
        t.contains(d) && t.contains(v) && index_in(pre, d) < index_in(pre, v) && index_in(t, v) < index_in(t, d) implies reachable(
            adj,
            d,
            v,
        ) by {
        if d == src {
            assert(post.contains(v));
            let j = index_in(pre, v);
            assert(pre.contains(v));
            assert(pre[j] == v);
        } else {
            assert(post.contains(d));
            if v == src {
                assert(index_in(t, v) == post.len());
            }
        }
    }
}

/// Visiting one more vertex keeps both properties of finishing orders.
proof fn lemma_visit_keeps(adj: Seq<Seq<int>>, pre: Seq<int>, post: Seq<int>, x: int)
    requires
        forall|a: int, b: int| 0 <= a < b < pre.push(x).len() ==> pre.push(x)[a] != pre.push(x)[b],
        forall|v: int| post.contains(v) ==> pre.contains(v),
        finishes_over_later_walks(adj, pre, post),
        nested_reachable(adj, pre, post),
    ensures
        finishes_over_later_walks(adj, pre.push(x), post),
        nested_reachable(adj, pre.push(x), post),
{
    let t = pre.push(x);
    assert forall|v: int| pre.contains(v) implies index_in(t, v) == index_in(pre, v) && t.take(index_in(t, v)) == pre.take(index_in(pre, v)) by {
        let i = index_in(pre, v);
        assert(pre[i] == t[i]);
        lemma_index_in(t, i);
        assert(t.take(i) =~= pre.take(i));
    }
}

/// The vertices of a graph in the orders a depth-first search over all of them visits them
/// (pre-order) and finishes them (post-order).
pub struct DepthFirstOrder {
    pre: Vec<VertexIndex>,
    post: Vec<VertexIndex>,
    reverse_post: Vec<VertexIndex>,
}

/// Hands out vertices from the front of a list.
pub struct PreOrderIter {
    queue: Vec<VertexIndex>,
    head: usize,
}

/// Hands out vertices from the front of a list.
pub struct PostOrderIter {
    queue: Vec<VertexIndex>,
    head: usize,
}

/// Hands out vertices from the back of a list.
pub struct ReversePostOrderIter {
    stack: Vec<VertexIndex>,
}

/// Copies a list of keys.
fn copy_keys(v: &Vec<VertexIndex>) -> (r: Vec<VertexIndex>)
    ensures
        r@ == v@,
{
    let mut r: Vec<VertexIndex> = Vec::new();
    let mut i: usize = 0;
    while i < v.len()
        invariant
            i <= v@.len(),
            r@ == v@.take(i as int),
        decreases v@.len() - i,
    {
        r.push(v[i]);
        proof {
            assert(r@ =~= v@.take(i + 1));
        }
        i = i + 1;
    }
    assert(r@ =~= v@);
    r
}

impl PreOrderIter {
    /// The vertices still to hand out.
    pub closed spec fn remaining(&self) -> Seq<int> {
        if self.head <= self.queue@.len() {
            positions(self.queue@).skip(self.head as int)
        } else {
            Seq::empty()
        }
    }

    /// The next vertex, or `None` at the end.
    pub fn next(&mut self) -> (r: Option<VertexIndex>)
        ensures
            old(self).remaining().len() == 0 ==> r is None && final(self).remaining() == old(self).remaining(),
            old(self).remaining().len() > 0 ==> (r matches Some(v) && v.spec_idx() == old(self).remaining()[0]
                && final(self).remaining() == old(self).remaining().drop_first()),
    {
        if self.head < self.queue.len() {
            let v = self.queue[self.head];
            self.head = self.head + 1;
            proof {
                assert(self.remaining() =~= old(self).remaining().drop_first());
            }
            Some(v)
        } else {
            None
        }
    }
}

impl PostOrderIter {
    /// The vertices still to hand out.
    pub closed spec fn remaining(&self) -> Seq<int> {
        if self.head <= self.queue@.len() {
            positions(self.queue@).skip(self.head as int)
        } else {
            Seq::empty()
        }
    }

    /// The next vertex, or `None` at the end.
    pub fn next(&mut self) -> (r: Option<VertexIndex>)
        ensures
            old(self).remaining().len() == 0 ==> r is None && final(self).remaining() == old(self).remaining(),
            old(self).remaining().len() > 0 ==> (r matches Some(v) && v.spec_idx() == old(self).remaining()[0]
                && final(self).remaining() == old(self).remaining().drop_first()),
    {
        if self.head < self.queue.len() {
            let v = self.queue[self.head];
            self.head = self.head + 1;
            proof {
                assert(self.remaining() =~= old(self).remaining().drop_first());
            }
            Some(v)
        } else {
            None
        }
    }
}

impl ReversePostOrderIter {
    /// The vertices still to hand out.
    pub closed spec fn remaining(&self) -> Seq<int> {
        positions(self.stack@).reverse()
    }

    /// The next vertex, or `None` at the end.
    pub fn next(&mut self) -> (r: Option<VertexIndex>)
        ensures
            old(self).remaining().len() == 0 ==> r is None && final(self).remaining() == old(self).remaining(),
            old(self).remaining().len() > 0 ==> (r matches Some(v) && v.spec_idx() == old(self).remaining()[0]
                && final(self).remaining() == old(self).remaining().drop_first()),
    {
        let r = self.stack.pop();
        proof {
            if old(self).stack@.len() > 0 {
                let x = r->0;
                assert(old(self).stack@ =~= self.stack@.push(x));
                assert(positions(old(self).stack@) =~= positions(self.stack@).push(x.idx as int));
                assert(positions(old(self).stack@).reverse() =~= seq![x.idx as int] + positions(self.stack@).reverse());
                assert(positions(self.stack@).reverse() =~= positions(old(self).stack@).reverse().drop_first());
            } else {
                assert(self.remaining() =~= old(self).remaining());
            }
        }
        r
    }
}

impl DepthFirstOrder {
    /// Vertices in the order the search first visits them.
    pub closed spec fn spec_pre(&self) -> Seq<int> {
        positions(self.pre@)
    }

    /// Vertices in the order the search finishes them.
    pub closed spec fn spec_post(&self) -> Seq<int> {
        positions(self.post@)
    }

    /// The reverse finishing list is kept beside the finishing list, in step with it.
    pub closed spec fn wf(&self) -> bool {
        self.reverse_post@ == self.post@
    }

    /// Depth-first search from `src`, recording visiting and finishing orders.
    #[verifier::rlimit(100)]
    fn dfs<V, E>(
        graph: &LinkedGraph<V, E>,
        marked: &mut Vec<bool>,
        pre: &mut Vec<VertexIndex>,
        post: &mut Vec<VertexIndex>,
        reverse_post: &mut Vec<VertexIndex>,
        src: usize,
        Ghost(stack): Ghost<Seq<int>>,
    )
        requires
            graph.wf(),
            old(marked)@.len() == graph.adj().len(),
            src < graph.adj().len(),
            !old(marked)@[src as int],
            edge_chain(graph.adj(), stack),
            forall|i: int| 0 <= i < stack.len() ==> old(marked)@[#[trigger] stack[i]],
            stack.len() > 0 ==> is_edge(graph.adj(), stack.last(), src as int),
            distinct_vertices(positions(old(pre)@), graph.adj().len() as int),
            distinct_vertices(positions(old(post)@), graph.adj().len() as int),
            forall|v: int| 0 <= v < graph.adj().len() ==> (old(marked)@[v] <==> #[trigger] positions(old(pre)@).contains(v)),
            forall|v: int|
                0 <= v < graph.adj().len() ==> (old(marked)@[v] && !stack.contains(v) <==> #[trigger] positions(old(post)@).contains(v)),
            old(reverse_post)@ == old(post)@,
            acyclic(graph.adj()) ==> finishes_after_successors(graph.adj(), positions(old(post)@)),
            finishes_over_later_walks(graph.adj(), positions(old(pre)@), positions(old(post)@)),
            nested_reachable(graph.adj(), positions(old(pre)@), positions(old(post)@)),
        ensures
            final(pre)@.len() > old(pre)@.len(),
            final(pre)@.take(old(pre)@.len() as int) == old(pre)@,
            positions(final(pre)@)[old(pre)@.len() as int] == src,
            forall|k: int, w: int|
                old(pre)@.len() <= k < final(pre)@.len() && #[trigger] is_edge(graph.adj(), positions(final(pre)@)[k], w)
                    ==> final(marked)@[w],
            forall|k: int|
                old(pre)@.len() <= k < final(pre)@.len() ==> reachable(graph.adj(), src as int, #[trigger] positions(final(pre)@)[k]),
            finishes_over_later_walks(graph.adj(), positions(final(pre)@), positions(final(post)@)),
            nested_reachable(graph.adj(), positions(final(pre)@), positions(final(post)@)),
            final(marked)@.len() == graph.adj().len(),
            final(marked)@[src as int],
            forall|v: int| 0 <= v < graph.adj().len() && old(marked)@[v] ==> #[trigger] final(marked)@[v],
            distinct_vertices(positions(final(pre)@), graph.adj().len() as int),
            distinct_vertices(positions(final(post)@), graph.adj().len() as int),
            forall|v: int| 0 <= v < graph.adj().len() ==> (final(marked)@[v] <==> #[trigger] positions(final(pre)@).contains(v)),
            forall|v: int|
                0 <= v < graph.adj().len() ==> (final(marked)@[v] && !stack.contains(v) <==> #[trigger] positions(final(post)@).contains(v)),
            final(reverse_post)@ == final(post)@,
            acyclic(graph.adj()) ==> finishes_after_successors(graph.adj(), positions(final(post)@)),
        decreases count_unmarked(old(marked)@),
    {
        let ghost adj = graph.adj();
        let ghost entry = marked@;
        let ghost n = adj.len() as int;
        proof {
            graph.lemma_adj_stored();
            lemma_mark_decreases(marked@, src as int);
        }
        let ghost pre0 = positions(pre@);
        let ghost p0 = pre@.len() as int;
        let ghost pre_entry = pre@;
        marked.set(src, true);
        pre.push(VertexIndex { idx: src });
        let ghost inner = stack.push(src as int);
        proof {
            assert(positions(pre@) =~= pre0.push(src as int));
            assert(!pre0.contains(src as int));
            lemma_push_distinct(pre0, src as int, n);
            assert forall|v: int| positions(post@).contains(v) implies pre0.contains(v) by {
                let i = choose|i: int| 0 <= i < positions(post@).len() && positions(post@)[i] == v;
                assert(0 <= positions(post@)[i] < n);
            }
            lemma_visit_keeps(adj, pre0, positions(post@), src as int);
            lemma_reachable_self(adj, src as int);
            assert(pre@.take(p0) =~= pre_entry);
            assert(!stack.contains(src as int)) by {
                if stack.contains(src as int) {
                    let i = choose|i: int| 0 <= i < stack.len() && stack[i] == src;
                    assert(entry[stack[i]]);
                }
            }
            assert forall|v: int| 0 <= v < n implies (marked@[v] && !inner.contains(v) <==> #[trigger] positions(post@).contains(v)) by {
                if v == src {
                    assert(inner[stack.len() as int] == v);
                } else if inner.contains(v) {
                    let i = choose|i: int| 0 <= i < inner.len() && inner[i] == v;
                    assert(stack[i] == v);
                    assert(stack.contains(v));
                } else if stack.contains(v) {
                    let i = choose|i: int| 0 <= i < stack.len() && stack[i] == v;
                    assert(inner[i] == v);
                }
            }
            assert forall|i: int| 0 < i < inner.len() implies #[trigger] is_edge(adj, inner[i - 1], inner[i]) by {
                if i < stack.len() {
                    assert(inner[i] == stack[i] && inner[i - 1] == stack[i - 1]);
                    assert(is_edge(adj, stack[i - 1], stack[i]));
                }
            }
            assert forall|i: int| 0 <= i < inner.len() implies 0 <= #[trigger] inner[i] < adj.len() by {
                if i < stack.len() {
                    assert(inner[i] == stack[i]);
                }
            }
        }
        let outs = &graph.vertexs[src].outs;
        assert(adj[src as int] == targets(outs@));
        let mut k: usize = 0;
        while k < outs.len()
            invariant
                graph.wf(),
                adj == graph.adj(),
                adj_wf(adj),
                n == adj.len(),
                graph.vertexs@.len() == adj.len(),
                src < adj.len(),
                *outs == graph.vertexs@[src as int].outs,
                adj[src as int] == targets(outs@),
                k <= outs@.len(),
                marked@.len() == adj.len(),
                entry == old(marked)@,
                forall|v: int| 0 <= v < adj.len() && entry[v] ==> #[trigger] marked@[v],
                count_unmarked(marked@) < count_unmarked(entry),
                marked@[src as int],
                inner == stack.push(src as int),
                edge_chain(adj, inner),
                forall|i: int| 0 <= i < inner.len() ==> marked@[#[trigger] inner[i]],
                distinct_vertices(positions(pre@), n),
                distinct_vertices(positions(post@), n),
                forall|v: int| 0 <= v < n ==> (marked@[v] <==> #[trigger] positions(pre@).contains(v)),
                forall|v: int| 0 <= v < n ==> (marked@[v] && !inner.contains(v) <==> #[trigger] positions(post@).contains(v)),
                reverse_post@ == post@,
                acyclic(adj) ==> finishes_after_successors(adj, positions(post@)),
                forall|j: int| 0 <= j < k ==> marked@[#[trigger] adj[src as int][j]],
                acyclic(adj) ==> forall|j: int| 0 <= j < k ==> positions(post@).contains(#[trigger] adj[src as int][j]),
                p0 == pre_entry.len(),
                pre@.len() > p0,
                pre@.take(p0) == pre_entry,
                positions(pre@)[p0] == src,
                forall|kk: int, w: int| p0 < kk < pre@.len() && #[trigger] is_edge(adj, positions(pre@)[kk], w) ==> marked@[w],
                forall|kk: int| p0 <= kk < pre@.len() ==> reachable(adj, src as int, #[trigger] positions(pre@)[kk]),
                finishes_over_later_walks(adj, positions(pre@), positions(post@)),
                nested_reachable(adj, positions(pre@), positions(post@)),
            decreases outs@.len() - k,
        {
            let dst = outs[k].to.idx;
            assert(dst == adj[src as int][k as int]);
            assert(adj[src as int].contains(dst as int));
            assert(is_edge(adj, src as int, dst as int));
            let ghost post_before = positions(post@);
            if !marked[dst] {
                let ghost before = marked@;
                proof {
                    assert(inner.last() == src);
                }
                let ghost pre_before = pre@;
                Self::dfs(graph, marked, pre, post, reverse_post, dst, Ghost(inner));
                proof {
                    lemma_count_superset(before, marked@);
                    lemma_reachable_self(adj, src as int);
                    lemma_reachable_step(adj, src as int, src as int, dst as int);
                    assert(pre@.take(p0) =~= pre_entry) by {
                        assert(pre@.take(pre_before.len() as int) == pre_before);
                        assert forall|i: int| 0 <= i < p0 implies pre@[i] == pre_entry[i] by {
                            assert(pre@[i] == pre_before[i]);
                            assert(pre_before[i] == pre_before.take(p0)[i]);
                        }
                    }
                    assert(positions(pre@)[p0] == src) by {
                        assert(pre@[p0] == pre_before[p0]);
                    }
                    assert forall|kk: int, w: int| p0 < kk < pre@.len() && #[trigger] is_edge(adj, positions(pre@)[kk], w) implies marked@[w] by {
                        if kk < pre_before.len() {
                            assert(pre@[kk] == pre_before[kk]);
                            assert(positions(pre@)[kk] == positions(pre_before)[kk]);
                            assert(before[w]);
                        }
                    }
                    assert forall|kk: int| p0 <= kk < pre@.len() implies reachable(adj, src as int, #[trigger] positions(pre@)[kk]) by {
                        if kk < pre_before.len() {
                            assert(pre@[kk] == pre_before[kk]);
                            assert(positions(pre@)[kk] == positions(pre_before)[kk]);
                        } else {
                            lemma_reachable_trans(adj, src as int, dst as int, positions(pre@)[kk]);
                        }
                    }
                    assert(!inner.contains(dst as int)) by {
                        if inner.contains(dst as int) {
                            let i = choose|i: int| 0 <= i < inner.len() && inner[i] == dst;
                            assert(before[inner[i]]);
                        }
                    }
                    assert(positions(post@).contains(dst as int));
                }
            } else {
                proof {
                    if acyclic(adj) {
                        if inner.contains(dst as int) {
                            let j = choose|j: int| 0 <= j < inner.len() && inner[j] == dst;
                            lemma_back_edge_cycle(adj, inner, j);
                        }
                        assert(positions(post@).contains(dst as int));
                    }
                }
            }
            proof {
                if acyclic(adj) {
                    assert forall|j: int| 0 <= j < k + 1 implies positions(post@).contains(#[trigger] adj[src as int][j]) by {
                        if j < k {
                            assert(post_before.contains(adj[src as int][j]));
                            let w = adj[src as int][j];
                            assert(0 <= w < n);
                            assert(marked@[w]);
                            assert(!inner.contains(w)) by {
                                let i = choose|i: int| 0 <= i < post_before.len() && post_before[i] == w;
                                assert(post_before.contains(w));
                            }
                        }
                    }
                }
            }
            k = k + 1;
        }
        let ghost post0 = positions(post@);
        proof {
            let pr = positions(pre@);
            assert forall|kk: int, w: int| p0 <= kk < pr.len() && #[trigger] is_edge(adj, pr[kk], w) implies marked@[w] by {
                if kk == p0 {
                    let jj = choose|jj: int| 0 <= jj < adj[src as int].len() && adj[src as int][jj] == w;
                    assert(marked@[adj[src as int][jj]]);
                }
            }
            assert forall|i: int| p0 < i < pr.len() implies post0.contains(#[trigger] pr[i]) by {
                let v = pr[i];
                assert(0 <= v < n);
                assert(pr.contains(v));
                assert(marked@[v]);
                if inner.contains(v) {
                    let j = choose|j: int| 0 <= j < inner.len() && inner[j] == v;
                    if j < stack.len() {
                        assert(stack[j] == v);
                        assert(entry[v]);
                        assert(pre_entry.len() == p0);
                        assert(pre0.contains(v));
                        let a = choose|a: int| 0 <= a < pre0.len() && pre0[a] == v;
                        assert(pr[a] == v) by {
                            assert(pre@.take(p0)[a] == pre@[a]);
                            assert(pre@[a] == pre_entry[a]);
                        }
                        assert(pr[a] != pr[i]);
                    } else {
                        assert(v == src);
                    }
                }
            }
            assert(!post0.contains(src as int)) by {
                assert(inner[stack.len() as int] == src);
                assert(inner.contains(src as int));
            }
            assert forall|v: int| post0.contains(v) implies pr.contains(v) by {
                let i = choose|i: int| 0 <= i < post0.len() && post0[i] == v;
                assert(0 <= post0[i] < n);
            }
            lemma_finish_src(adj, pr, post0, marked@, src as int, p0);
        }
        post.push(VertexIndex { idx: src });
        reverse_post.push(VertexIndex { idx: src });
        proof {
            assert(positions(post@) =~= post0.push(src as int));
            assert(positions(post@) =~= post0.push(src as int));
            assert(!post0.contains(src as int)) by {
                assert(inner[stack.len() as int] == src);
                assert(inner.contains(src as int));
            }
            lemma_push_distinct(post0, src as int, n);
            assert forall|v: int| 0 <= v < n implies (marked@[v] && !stack.contains(v) <==> #[trigger] positions(post@).contains(v)) by {
                if v == src {
                    assert(positions(post@)[post0.len() as int] == v);
                } else {
                    if stack.contains(v) {
                        let i = choose|i: int| 0 <= i < stack.len() && stack[i] == v;
                        assert(inner[i] == v);
                        assert(inner.contains(v));
                    }
                    if inner.contains(v) {
                        let i = choose|i: int| 0 <= i < inner.len() && inner[i] == v;
                        if i < stack.len() {
                            assert(stack[i] == v);
                            assert(stack.contains(v));
                        }
                    }
                    assert(positions(post@).contains(v) == post0.contains(v));
                }
            }
            if acyclic(adj) {
                let np = positions(post@);
                assert forall|i: int, v: int| 0 <= i < np.len() && #[trigger] is_edge(adj, np[i], v) implies exists|j: int| 0 <= j < i && np[j] == v by {
                    if i == post0.len() {
                        let jj = choose|jj: int| 0 <= jj < adj[src as int].len() && adj[src as int][jj] == v;
                        assert(post0.contains(adj[src as int][jj]));
                        let j = choose|j: int| 0 <= j < post0.len() && post0[j] == v;
                        assert(np[j] == v);
                    } else {
                        assert(np[i] == post0[i]);
                        assert(is_edge(adj, post0[i], v));
                        let j = choose|j: int| 0 <= j < i && post0[j] == v;
                        assert(np[j] == v);
                    }
                }
            }
        }
    }

    /// Searches all of `graph` depth-first, starting from each vertex not yet visited in
    /// order.
    pub fn new<V, E>(graph: &LinkedGraph<V, E>) -> (r: Self)
        requires
            graph.wf(),
        ensures
            distinct_vertices(r.spec_pre(), graph.adj().len() as int),
            distinct_vertices(r.spec_post(), graph.adj().len() as int),
            forall|v: int| 0 <= v < graph.adj().len() ==> #[trigger] r.spec_pre().contains(v),
            forall|v: int| 0 <= v < graph.adj().len() ==> #[trigger] r.spec_post().contains(v),
            acyclic(graph.adj()) ==> finishes_after_successors(graph.adj(), r.spec_post()),
            finishes_over_later_walks(graph.adj(), r.spec_pre(), r.spec_post()),
            nested_reachable(graph.adj(), r.spec_pre(), r.spec_post()),
            r.wf(),
    {
        let ghost adj = graph.adj();
        proof {
            graph.lemma_adj_stored();
        }
        let n = graph.vertex_num();
        let (mut marked, _) = fresh_marks(n);
        let mut pre: Vec<VertexIndex> = Vec::new();
        let mut post: Vec<VertexIndex> = Vec::new();
        let mut reverse_post: Vec<VertexIndex> = Vec::new();
        proof {
            assert(positions(pre@) =~= Seq::<int>::empty());
            assert(positions(post@) =~= Seq::<int>::empty());
        }
        let mut src: usize = 0;
        while src < n
            invariant
                graph.wf(),
                adj == graph.adj(),
                n == adj.len(),
                src <= n,
                marked@.len() == n,
                forall|v: int| 0 <= v < src ==> #[trigger] marked@[v],
                distinct_vertices(positions(pre@), n as int),
                distinct_vertices(positions(post@), n as int),
                forall|v: int| 0 <= v < n ==> (marked@[v] <==> #[trigger] positions(pre@).contains(v)),
                forall|v: int| 0 <= v < n ==> (marked@[v] <==> #[trigger] positions(post@).contains(v)),
                reverse_post@ == post@,
                acyclic(adj) ==> finishes_after_successors(adj, positions(post@)),
                finishes_over_later_walks(adj, positions(pre@), positions(post@)),
                nested_reachable(adj, positions(pre@), positions(post@)),
            decreases n - src,
        {
            if !marked[src] {
                let ghost stack = Seq::<int>::empty();
                proof {
                    assert forall|v: int| 0 <= v < n implies (marked@[v] && !stack.contains(v) <==> #[trigger] positions(post@).contains(v)) by {
                    }
                }
                Self::dfs(graph, &mut marked, &mut pre, &mut post, &mut reverse_post, src, Ghost(stack));
                proof {
                    assert forall|v: int| 0 <= v < n implies (marked@[v] <==> #[trigger] positions(post@).contains(v)) by {
                        assert(!stack.contains(v));
                    }
                }
            }
            src = src + 1;
        }
        DepthFirstOrder { pre, post, reverse_post }
    }

    /// The vertices in visiting order.
    pub fn pre(&self) -> (it: PreOrderIter)
        ensures
            it.remaining() == self.spec_pre(),
    {
        let it = PreOrderIter { queue: copy_keys(&self.pre), head: 0 };
        assert(it.remaining() =~= self.spec_pre());
        it
    }

    /// The vertices in finishing order.
    pub fn post(&self) -> (it: PostOrderIter)
        ensures
            it.remaining() == self.spec_post(),
    {
        let it = PostOrderIter { queue: copy_keys(&self.post), head: 0 };
        assert(it.remaining() =~= self.spec_post());
        it
    }

    /// The vertices in reverse finishing order.
    pub fn reverse_post(&self) -> (it: ReversePostOrderIter)
        requires
            self.wf(),
        ensures
            it.remaining() == self.spec_post().reverse(),
    {
        ReversePostOrderIter { stack: copy_keys(&self.reverse_post) }
    }
}

/// The values of the vertices of an acyclic graph in topological order: every edge goes
/// from an earlier vertex to a later one. A graph with a cycle has no such order, and yields
/// nothing.
pub struct Topological<'a, V, E> {
    graph: &'a LinkedGraph<V, E>,
    iter: Option<ReversePostOrderIter>,
}

impl<'a, V, E> Topological<'a, V, E> {
    /// The graph ordered.
    pub closed spec fn spec_graph(&self) -> &'a LinkedGraph<V, E> {
        self.graph
    }

    /// The vertices still to hand out, or `None` for a graph with a cycle.
    pub closed spec fn order(&self) -> Option<Seq<int>> {
        match self.iter {
            Some(it) => Some(it.remaining()),
            None => None,
        }
    }

    /// Orders the vertices of `graph` topologically when it has no cycle.
    pub fn new(graph: &'a LinkedGraph<V, E>) -> (t: Self)
        requires
            graph.wf(),
        ensures
            t.spec_graph() == graph,
            acyclic(graph.adj()) ==> (t.order() matches Some(o) && is_topological(graph.adj(), o) && distinct_vertices(
                o,
                graph.adj().len() as int,
            ) && forall|v: int| 0 <= v < graph.adj().len() ==> #[trigger] o.contains(v)),
            !acyclic(graph.adj()) ==> t.order() is None,
    {
        let cycle = Cycle::new(graph);
        if cycle.has_cycle() {
            Topological { graph, iter: None }
        } else {
            let order = DepthFirstOrder::new(graph);
            let ghost post = order.spec_post();
            let it = ReversePostOrderIter { stack: copy_keys(&order.reverse_post) };
            proof {
                lemma_reverse_post_topological(graph.adj(), post);
                let r = post.reverse();
                let n = graph.adj().len() as int;
                assert(it.remaining() == order.spec_post().reverse());
                assert forall|i: int, j: int| 0 <= i < j < r.len() implies r[i] != r[j] by {
                    assert(r[i] == post[post.len() - 1 - i]);
                    assert(r[j] == post[post.len() - 1 - j]);
                }
                assert forall|i: int| 0 <= i < r.len() implies 0 <= #[trigger] r[i] < n by {
                    assert(r[i] == post[post.len() - 1 - i]);
                }
                assert forall|v: int| 0 <= v < n implies #[trigger] r.contains(v) by {
                    assert(post.contains(v));
                    let i = choose|i: int| 0 <= i < post.len() && post[i] == v;
                    assert(r[post.len() - 1 - i] == v);
                }
            }
            Topological { graph, iter: Some(it) }
        }
    }

    /// The value of the next vertex in topological order, or `None` at the end (at once for
    /// a graph with a cycle).
    pub fn next(&mut self) -> (r: Option<&'a V>)
        requires
            old(self).spec_graph().wf(),
            old(self).order() matches Some(o) ==> forall|i: int| 0 <= i < o.len() ==> 0 <= #[trigger] o[i] < old(self).spec_graph().values().len(),
        ensures
            final(self).spec_graph() == old(self).spec_graph(),
            match old(self).order() {
                Some(o) => if o.len() > 0 {
                    r == Some(&old(self).spec_graph().values()[o[0]]) && final(self).order() == Some(o.drop_first())
                } else {
                    r is None && final(self).order() == old(self).order()
                },
                None => r is None && final(self).order() is None,
            },
    {
        match &mut self.iter {
            Some(it) => match it.next() {
                Some(v) => self.graph.get_vertex(&v),
                None => None,
            },
            None => None,
        }
    }
}

impl<V, E> LinkedGraph<V, E> {
    /// The depth-first visiting and finishing orders of all the vertices.
    pub fn dfs_order(&self) -> (r: DepthFirstOrder)
        requires
            self.wf(),
        ensures
            r.wf(),
            distinct_vertices(r.spec_pre(), self.adj().len() as int),
            distinct_vertices(r.spec_post(), self.adj().len() as int),
            forall|v: int| 0 <= v < self.adj().len() ==> #[trigger] r.spec_pre().contains(v),
            forall|v: int| 0 <= v < self.adj().len() ==> #[trigger] r.spec_post().contains(v),
            acyclic(self.adj()) ==> finishes_after_successors(self.adj(), r.spec_post()),
    {
        DepthFirstOrder::new(self)
    }

    /// The values of the vertices in topological order, when the graph has no cycle.
    pub fn topological(&self) -> (t: Topological<'_, V, E>)
        requires
            self.wf(),
        ensures
            t.spec_graph() == self,
            acyclic(self.adj()) ==> (t.order() matches Some(o) && is_topological(self.adj(), o) && distinct_vertices(
                o,
                self.adj().len() as int,
            ) && forall|v: int| 0 <= v < self.adj().len() ==> #[trigger] o.contains(v)),
            !acyclic(self.adj()) ==> t.order() is None,
    {
        Topological::new(self)
    }
}

} // verus!
