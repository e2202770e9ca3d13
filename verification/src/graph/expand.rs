use vstd::prelude::*;

use crate::edge::{Edge, EdgeView};
use crate::graph::{fresh_node, endpoints_present, find_node, has_id, index_of, lemma_index_of, lemma_index_of_exists, Graph};
use crate::node::NodeView;

verus! {

/// Level of the node with the id.
pub open spec fn level_of(nodes: Seq<NodeView>, id: i32) -> int {
    nodes[index_of(nodes, id)].level as int
}

/// How many levels the edge descends.
pub open spec fn span(nodes: Seq<NodeView>, e: EdgeView) -> int {
    level_of(nodes, e.target) - level_of(nodes, e.source)
}

/// Number of dummy nodes that breaking the edge into unit steps inserts.
pub open spec fn dummies_for(nodes: Seq<NodeView>, e: EdgeView) -> int {
    if span(nodes, e) > 1 {
        span(nodes, e) - 1
    } else {
        0
    }
}

/// Number of dummy nodes that the first `k` edges need.
pub open spec fn dummies_before(nodes: Seq<NodeView>, edges: Seq<EdgeView>, k: int) -> int
    decreases k,
{
    if k <= 0 {
        0
    } else {
        dummies_before(nodes, edges, k - 1) + dummies_for(nodes, edges[k - 1])
    }
}

/// The chain of `d` edges from `src` to `tgt` through the dummy nodes
/// `first_id`, `first_id + 1`, ..., all remembering `orig` as their source.
pub open spec fn chain_edges(orig: i32, src: i32, tgt: i32, first_id: int, d: int) -> Seq<EdgeView> {
    Seq::new(
        d as nat,
        |j: int|
            EdgeView {
                original_source: orig,
                source: if j == 0 {
                    src
                } else {
                    (first_id + j - 1) as i32
                },
                target: if j == d - 1 {
                    tgt
                } else {
                    (first_id + j) as i32
                },
                route: Seq::empty(),
                crossing: false,
            },
    )
}

/// `count` dummy nodes numbered from `first_id`, on the levels following `level`.
pub open spec fn chain_nodes(first_id: int, level: int, count: int) -> Seq<NodeView> {
    Seq::new(
        count as nat,
        |j: int|
            NodeView {
                id: (first_id + j) as i32,
                level: (level + j + 1) as i32,
                label: Seq::empty(),
                x2: 0,
                y2: 0,
                is_dummy: true,
            },
    )
}

/// The chain of edges that replaces `e`, its dummy nodes numbered from
/// `first_id`; an edge that descends at most one level stays as it is.
pub open spec fn expanded_edge(nodes: Seq<NodeView>, e: EdgeView, first_id: int) -> Seq<EdgeView> {
    if span(nodes, e) <= 1 {
        seq![e]
    } else {
        chain_edges(e.original_source, e.source, e.target, first_id, span(nodes, e))
    }
}

/// The dummy nodes that breaking `e` inserts, numbered from `first_id`, one
/// on each level strictly between the edge's endpoints.
pub open spec fn dummy_nodes(nodes: Seq<NodeView>, e: EdgeView, first_id: int) -> Seq<NodeView> {
    chain_nodes(first_id, level_of(nodes, e.source), dummies_for(nodes, e))
}

/// The edges that replace the first `k` edges.
pub open spec fn expanded_edges(
    nodes: Seq<NodeView>,
    edges: Seq<EdgeView>,
    next_id: int,
    k: int,
) -> Seq<EdgeView>
    decreases k,
{
    if k <= 0 {
        Seq::empty()
    } else {
        expanded_edges(nodes, edges, next_id, k - 1) + expanded_edge(
            nodes,
            edges[k - 1],
            next_id + dummies_before(nodes, edges, k - 1),
        )
    }
}

/// The dummy nodes that the first `k` edges insert.
pub open spec fn added_nodes(
    nodes: Seq<NodeView>,
    edges: Seq<EdgeView>,
    next_id: int,
    k: int,
) -> Seq<NodeView>
    decreases k,
{
    if k <= 0 {
        Seq::empty()
    } else {
        added_nodes(nodes, edges, next_id, k - 1) + dummy_nodes(
            nodes,
            edges[k - 1],
            next_id + dummies_before(nodes, edges, k - 1),
        )
    }
}

/// Every edge's span fits an `i32`.
pub open spec fn spans_fit(nodes: Seq<NodeView>, edges: Seq<EdgeView>) -> bool {
    forall|k: int| 0 <= k < edges.len() ==> i32::MIN <= #[trigger] span(nodes, edges[k]) <= i32::MAX
}

pub(crate) proof fn lemma_dummies_before_monotone(nodes: Seq<NodeView>, edges: Seq<EdgeView>, k: int, m: int)
    requires
        0 <= k <= m,
    ensures
        0 <= dummies_before(nodes, edges, k) <= dummies_before(nodes, edges, m),
    decreases m - k,
{
    if k < m {
        lemma_dummies_before_monotone(nodes, edges, k, m - 1);
    } else {
        lemma_dummies_before_nonneg(nodes, edges, k);
    }
}

pub(crate) proof fn lemma_dummies_before_nonneg(nodes: Seq<NodeView>, edges: Seq<EdgeView>, k: int)
    ensures
        0 <= dummies_before(nodes, edges, k),
    decreases k,
{
    if k > 0 {
        lemma_dummies_before_nonneg(nodes, edges, k - 1);
    }
}

pub(crate) proof fn lemma_added_nodes_len(nodes: Seq<NodeView>, edges: Seq<EdgeView>, next_id: int, k: int)
    requires
        0 <= k <= edges.len(),
    ensures
        added_nodes(nodes, edges, next_id, k).len() == dummies_before(nodes, edges, k),
    decreases k,
{
    if k > 0 {
        lemma_added_nodes_len(nodes, edges, next_id, k - 1);
    }
}

/// Ids present in `s` keep their first position when nodes are appended.
pub(crate) proof fn lemma_index_of_prefix(s: Seq<NodeView>, t: Seq<NodeView>, id: i32)
    requires
        has_id(s, id),
    ensures
        has_id(s + t, id),
        index_of(s + t, id) == index_of(s, id),
        (s + t)[index_of(s, id)] == s[index_of(s, id)],
{
    lemma_index_of_exists(s, id);
    let k = index_of(s, id);
    lemma_index_of(s + t, id, k);
}

pub(crate) proof fn lemma_expand_step(nodes: Seq<NodeView>, edges: Seq<EdgeView>, next_id: int, k: int)
    requires
        0 <= k < edges.len(),
    ensures
        dummies_before(nodes, edges, k + 1) == dummies_before(nodes, edges, k) + dummies_for(
            nodes,
            edges[k],
        ),
        added_nodes(nodes, edges, next_id, k + 1) == added_nodes(nodes, edges, next_id, k)
            + dummy_nodes(nodes, edges[k], next_id + dummies_before(nodes, edges, k)),
        expanded_edges(nodes, edges, next_id, k + 1) == expanded_edges(nodes, edges, next_id, k)
            + expanded_edge(nodes, edges[k], next_id + dummies_before(nodes, edges, k)),
{
}

proof fn lemma_short_edge(nodes: Seq<NodeView>, edges: Seq<EdgeView>, next_id: int, k: int)
    requires
        0 <= k < edges.len(),
        span(nodes, edges[k]) <= 1,
    ensures
        dummies_before(nodes, edges, k + 1) == dummies_before(nodes, edges, k),
        added_nodes(nodes, edges, next_id, k + 1) == added_nodes(nodes, edges, next_id, k),
        expanded_edges(nodes, edges, next_id, k + 1) == expanded_edges(nodes, edges, next_id, k).push(
            edges[k],
        ),
{
    lemma_expand_step(nodes, edges, next_id, k);
    assert(added_nodes(nodes, edges, next_id, k + 1) =~= added_nodes(nodes, edges, next_id, k));
    assert(expanded_edges(nodes, edges, next_id, k + 1) =~= expanded_edges(nodes, edges, next_id, k).push(
        edges[k],
    ));
}

proof fn lemma_long_edge(nodes: Seq<NodeView>, edges: Seq<EdgeView>, next_id: int, k: int)
    requires
        0 <= k < edges.len(),
        span(nodes, edges[k]) > 1,
    ensures
        dummies_before(nodes, edges, k + 1) == dummies_before(nodes, edges, k) + span(nodes, edges[k]) - 1,
        added_nodes(nodes, edges, next_id, k + 1) == added_nodes(nodes, edges, next_id, k) + chain_nodes(
            next_id + dummies_before(nodes, edges, k),
            level_of(nodes, edges[k].source),
            span(nodes, edges[k]) - 1,
        ),
        expanded_edges(nodes, edges, next_id, k + 1) == expanded_edges(nodes, edges, next_id, k)
            + chain_edges(
            edges[k].original_source,
            edges[k].source,
            edges[k].target,
            next_id + dummies_before(nodes, edges, k),
            span(nodes, edges[k]),
        ),
{
    lemma_expand_step(nodes, edges, next_id, k);
}

/// The dummy nodes get the ids from `next_id` on, in order.
pub(crate) proof fn lemma_added_ids(nodes: Seq<NodeView>, edges: Seq<EdgeView>, next_id: int, k: int)
    requires
        0 <= k <= edges.len(),
    ensures
        forall|i: int|
            0 <= i < dummies_before(nodes, edges, k) ==> (#[trigger] added_nodes(nodes, edges, next_id, k)[i]).id
                == (next_id + i) as i32,
    decreases k,
{
    lemma_added_nodes_len(nodes, edges, next_id, k);
    if k > 0 {
        lemma_added_ids(nodes, edges, next_id, k - 1);
        lemma_added_nodes_len(nodes, edges, next_id, k - 1);
        lemma_expand_step(nodes, edges, next_id, k - 1);
        let prev = added_nodes(nodes, edges, next_id, k - 1);
        let first = next_id + dummies_before(nodes, edges, k - 1);
        let extra = dummy_nodes(nodes, edges[k - 1], first);
        assert forall|i: int| 0 <= i < dummies_before(nodes, edges, k) implies (#[trigger] added_nodes(
            nodes,
            edges,
            next_id,
            k,
        )[i]).id == (next_id + i) as i32 by {
            if i < prev.len() {
                assert(added_nodes(nodes, edges, next_id, k)[i] == prev[i]);
            } else {
                assert(added_nodes(nodes, edges, next_id, k)[i] == extra[i - prev.len()]);
            }
        }
    }
}

/// A copy of the edge.
pub(crate) fn copy_edge(e: &Edge) -> (res: Edge)
    ensures
        res@ == e@,
{
    let mut route: Vec<(i64, i64)> = Vec::new();
    let mut i: usize = 0;
    while i < e.route.len()
        invariant
            i <= e.route@.len(),
            route@ == e.route@.take(i as int),
        decreases e.route@.len() - i,
    {
        route.push(e.route[i]);
        i += 1;
        assert(route@ =~= e.route@.take(i as int));
    }
    assert(e.route@.take(e.route@.len() as int) =~= e.route@);
    Edge {
        original_source: e.original_source,
        source: e.source,
        target: e.target,
        route,
        crossing: e.crossing,
    }
}


/// The view of a vector of edges.
pub open spec fn edges_view(v: Seq<Edge>) -> Seq<EdgeView> {
    v.map_values(|e: Edge| e@)
}

impl Graph {
    /// Level of the node with the id, looked up in the current nodes.
    pub(crate) fn level_at(&self, id: i32) -> (l: i32)
        requires
            has_id(self@.nodes, id),
        ensures
            l == level_of(self@.nodes, id),
    {
        match find_node(&self.nodes, id) {
            Some(i) => {
                assert(self.nodes@[i as int]@ == self@.nodes[i as int]);
                self.nodes[i].level
            },
            None => {
                assert(false);
                0
            },
        }
    }

    /// Appends the chain of `diff` edges from `src` to `tgt` to `new_edges`,
    /// adding the `diff - 1` dummy nodes it passes through.
    fn push_chain(&mut self, new_edges: &mut Vec<Edge>, orig: i32, src: i32, tgt: i32, sl: i32, diff: i32)
        requires
            1 < diff,
            sl + diff <= i32::MAX,
            old(self)@.well_formed(),
            old(self)@.next_id + diff - 1 <= i32::MAX,
        ensures
            final(self)@.nodes == old(self)@.nodes + chain_nodes(old(self)@.next_id, sl as int, diff - 1),
            edges_view(final(new_edges)@) == edges_view(old(new_edges)@) + chain_edges(
                orig,
                src,
                tgt,
                old(self)@.next_id,
                diff as int,
            ),
            final(self)@.next_id == old(self)@.next_id + diff - 1,
            final(self)@.edges == old(self)@.edges,
            final(self)@.well_formed(),
    {
        let ghost base = self@.next_id;
        let ghost n0 = self@.nodes;
        let ghost e0 = edges_view(new_edges@);
        let ghost chain = chain_edges(orig, src, tgt, base, diff as int);
        let ghost dummies = chain_nodes(base, sl as int, diff - 1);
        let mut prev = src;
        let mut i: i32 = 1;
        proof {
            assert(self@.nodes =~= n0 + dummies.take(0));
            assert(edges_view(new_edges@) =~= e0 + chain.take(0));
        }
        while i < diff
            invariant
                1 <= i <= diff,
                1 < diff,
                sl + diff <= i32::MAX,
                base + diff - 1 <= i32::MAX,
                chain == chain_edges(orig, src, tgt, base, diff as int),
                dummies == chain_nodes(base, sl as int, diff - 1),
                self@.nodes == n0 + dummies.take(i - 1),
                self@.next_id == base + i - 1,
                self@.edges == old(self)@.edges,
                edges_view(new_edges@) == e0 + chain.take(i - 1),
                prev == if i == 1 {
                    src
                } else {
                    (base + i - 2) as i32
                },
                self@.well_formed(),
            decreases diff - i,
        {
            let ghost before = self@.nodes;
            let label = String::new();
            assert(label@ == Seq::<char>::empty());
            let d = self.add_dummy_node(label);
            let ghost mid = self@.nodes;
            assert(self.nodes@.len() == mid.len());
            let last = self.nodes.len() - 1;
            let ghost before_v = self.nodes@;
            assert(before_v[last as int]@ == mid[last as int]);
            assert(mid[last as int] == fresh_node(base + i - 1, Seq::empty(), true));
            self.nodes[last].level = sl + i;
            proof {
                assert(self.nodes@[last as int]@ == dummies[i - 1]);
                assert forall|j: int| 0 <= j < last implies #[trigger] self.nodes@[j]@ == before[j] by {
                    assert(self.nodes@[j] == before_v[j]);
                    assert(before_v[j]@ == mid[j]);
                }
                assert(self@.nodes =~= before.push(dummies[i - 1]));
                assert(dummies.take(i as int) =~= dummies.take(i - 1).push(dummies[i - 1]));
                assert(self@.nodes =~= n0 + dummies.take(i as int));
            }
            let ne = Edge { original_source: orig, source: prev, target: d, route: Vec::new(), crossing: false };
            let ghost pre_v = new_edges@;
            new_edges.push(ne);
            proof {
                assert(edges_view(new_edges@) =~= edges_view(pre_v).push(ne@));
                assert(ne@ == chain[i - 1]);
                assert(chain.take(i as int) =~= chain.take(i - 1).push(chain[i - 1]));
                assert(edges_view(new_edges@) =~= e0 + chain.take(i as int));
            }
            prev = d;
            i = i + 1;
        }
        let ne = Edge { original_source: orig, source: prev, target: tgt, route: Vec::new(), crossing: false };
        let ghost pre_v = new_edges@;
        new_edges.push(ne);
        proof {
            assert(ne@ == chain[diff - 1]);
            assert(edges_view(new_edges@) =~= edges_view(pre_v).push(ne@));
            assert(chain =~= chain.take(diff - 1).push(chain[diff - 1]));
            assert(edges_view(new_edges@) =~= e0 + chain);
            assert(dummies.take(diff - 1) =~= dummies);
        }
    }

    /// Appends the replacement of edge `k` to `new_edges`.
    fn expand_edge_at(
        &mut self,
        new_edges: &mut Vec<Edge>,
        k: usize,
        Ghost(s0): Ghost<Seq<NodeView>>,
        Ghost(es): Ghost<Seq<EdgeView>>,
        Ghost(id0): Ghost<int>,
    )
        requires
            k < es.len(),
            old(self).edges@.len() == es.len(),
            old(self)@.edges == es,
            old(self)@.nodes == s0 + added_nodes(s0, es, id0, k as int),
            old(self)@.next_id == id0 + dummies_before(s0, es, k as int),
            edges_view(old(new_edges)@) == expanded_edges(s0, es, id0, k as int),
            old(self)@.well_formed(),
            id0 + dummies_before(s0, es, es.len() as int) <= i32::MAX,
            endpoints_present(s0, es),
            spans_fit(s0, es),
        ensures
            final(self).edges@.len() == es.len(),
            final(self)@.edges == es,
            final(self)@.nodes == s0 + added_nodes(s0, es, id0, k + 1),
            final(self)@.next_id == id0 + dummies_before(s0, es, k + 1),
            edges_view(final(new_edges)@) == expanded_edges(s0, es, id0, k + 1),
            final(self)@.well_formed(),
    {
        let n = self.edges.len();
        let ghost base = id0 + dummies_before(s0, es, k as int);
        let ghost added = added_nodes(s0, es, id0, k as int);
        let ghost e = es[k as int];
        proof {
            assert(self.edges@[k as int]@ == e);
            assert(endpoints_present(s0, es));
            assert(0 <= k < es.len());
            let kk = k as int;
            assert(has_id(s0, es[kk].source));
            assert(has_id(s0, es[kk].target));
            lemma_index_of_prefix(s0, added, e.source);
            lemma_index_of_prefix(s0, added, e.target);
            lemma_dummies_before_monotone(s0, es, k + 1, n as int);
            assert(i32::MIN <= span(s0, es[k as int]) <= i32::MAX);
        }
        let src = self.edges[k].source;
        let tgt = self.edges[k].target;
        let orig = self.edges[k].original_source;
        let sl = self.level_at(src);
        let tl = self.level_at(tgt);
        assert(sl == level_of(s0, e.source));
        assert(tl == level_of(s0, e.target));
        let diff = tl - sl;
        if diff <= 1 {
            proof {
                lemma_short_edge(s0, es, id0, k as int);
            }
            let c = copy_edge(&self.edges[k]);
            let ghost pre_v = new_edges@;
            new_edges.push(c);
            proof {
                assert(edges_view(new_edges@) =~= edges_view(pre_v).push(e));
            }
        } else {
            proof {
                lemma_long_edge(s0, es, id0, k as int);
            }
            self.push_chain(new_edges, orig, src, tgt, sl, diff);
            proof {
                assert(self@.nodes =~= s0 + added_nodes(s0, es, id0, k + 1));
            }
        }
    }

    /// Breaks every edge that descends more than one level into a chain of
    /// edges through new dummy nodes, one dummy node on each level in
    /// between; the chain keeps the edge's original source. Edges that
    /// descend at most one level (or climb) are kept as they are.
    pub fn expand_long_edges(&mut self)
        requires
            old(self)@.well_formed(),
            endpoints_present(old(self)@.nodes, old(self)@.edges),
            spans_fit(old(self)@.nodes, old(self)@.edges),
            old(self)@.next_id + dummies_before(
                old(self)@.nodes,
                old(self)@.edges,
                old(self)@.edges.len() as int,
            ) <= i32::MAX,
        ensures
            final(self)@.nodes == old(self)@.nodes + added_nodes(
                old(self)@.nodes,
                old(self)@.edges,
                old(self)@.next_id,
                old(self)@.edges.len() as int,
            ),
            final(self)@.edges == expanded_edges(
                old(self)@.nodes,
                old(self)@.edges,
                old(self)@.next_id,
                old(self)@.edges.len() as int,
            ),
            final(self)@.next_id == old(self)@.next_id + dummies_before(
                old(self)@.nodes,
                old(self)@.edges,
                old(self)@.edges.len() as int,
            ),
            old(self)@.ids_are_positions() ==> final(self)@.ids_are_positions(),
            final(self)@.well_formed(),
    {
        let ghost s0 = self@.nodes;
        let ghost es = self@.edges;
        let ghost id0 = self@.next_id;
        let n = self.edges.len();
        let mut new_edges: Vec<Edge> = Vec::new();
        let mut k: usize = 0;
        while k < n
            invariant
                n == es.len(),
                self.edges@.len() == n,
                self@.edges == es,
                k <= n,
                self@.nodes == s0 + added_nodes(s0, es, id0, k as int),
                self@.next_id == id0 + dummies_before(s0, es, k as int),
                edges_view(new_edges@) == expanded_edges(s0, es, id0, k as int),
                self@.well_formed(),
                id0 + dummies_before(s0, es, n as int) <= i32::MAX,
                endpoints_present(s0, es),
                spans_fit(s0, es),
            decreases n - k,
        {
            self.expand_edge_at(&mut new_edges, k, Ghost(s0), Ghost(es), Ghost(id0));
            k += 1;
        }
        self.edges = new_edges;
        proof {
            assert(self@.edges =~= edges_view(new_edges@));
            lemma_added_nodes_len(s0, es, id0, n as int);
            lemma_added_ids(s0, es, id0, n as int);
            lemma_dummies_before_nonneg(s0, es, n as int);
            if old(self)@.ids_are_positions() {
                let added = added_nodes(s0, es, id0, n as int);
                assert forall|i: int| 0 <= i < self@.nodes.len() implies #[trigger] self@.nodes[i].id == i by {
                    if i >= s0.len() {
                        assert(self@.nodes[i] == added[i - s0.len()]);
                    }
                }
            }
        }
    }
}

} // verus!
