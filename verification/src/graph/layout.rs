use vstd::prelude::*;

use crate::edge::EdgeView;
use crate::graph::expand::{added_nodes, copy_edge, dummies_before, edges_view, dummy_nodes, expanded_edge, expanded_edges, lemma_added_nodes_len, lemma_dummies_before_nonneg, span, spans_fit};
use crate::graph::laws::{law_acyclic_all_reached, law_edges_descend, law_expanded_unit_steps};
use crate::graph::levels::{acyclic, has_layering, is_layering, layered_levels, reached, with_levels};
use crate::graph::positions::{lemma_place_layers_below_keeps, placed};
use crate::graph::routing::{flag_crossings, routed};
use crate::graph::sorting::{law_sorted_by_ends, sort_by_ends, sorted_by_ends};
use crate::graph::{endpoints_present, find_node, fresh_edge, fresh_node, has_id, ids_distinct, index_of, lemma_index_of_exists, lemma_same_ids, Graph, GraphView};
use crate::grid_layout::GridLayout;
use crate::layout_result::{LayoutResult, LayoutView};
use crate::node::NodeView;

verus! {

/// The grid that `GridLayout::new` returns.
pub open spec fn default_grid() -> GridLayout {
    GridLayout { layer_spacing: 100, node_spacing: 150, node_width: 50, node_height: 50 }
}

/// The nodes with their longest-path levels.
pub open spec fn levelled(nodes: Seq<NodeView>, edges: Seq<EdgeView>) -> Seq<NodeView> {
    with_levels(nodes, layered_levels(nodes, edges))
}

/// The graph with its nodes moved to their longest-path levels.
pub open spec fn after_levels(g: GraphView) -> GraphView {
    GraphView { nodes: levelled(g.nodes, g.edges), edges: g.edges, next_id: g.next_id }
}

/// Number of dummy nodes that breaking the long edges of a levelled graph inserts.
pub open spec fn dummies_of(h: GraphView) -> int {
    dummies_before(h.nodes, h.edges, h.edges.len() as int)
}

/// Number of dummy nodes that the layout of the graph inserts.
pub open spec fn dummy_count(g: GraphView) -> int {
    dummies_of(after_levels(g))
}

/// The nodes of a levelled graph after breaking its long edges.
pub open spec fn expanded_nodes(h: GraphView) -> Seq<NodeView> {
    h.nodes + added_nodes(h.nodes, h.edges, h.next_id, h.edges.len() as int)
}

/// The edges of a levelled graph after breaking its long edges.
pub open spec fn unit_edges(h: GraphView) -> Seq<EdgeView> {
    expanded_edges(h.nodes, h.edges, h.next_id, h.edges.len() as int)
}

/// The nodes of a levelled graph at the end of the layout.
pub open spec fn finished_nodes(h: GraphView) -> Seq<NodeView> {
    placed(expanded_nodes(h), unit_edges(h), default_grid())
}

/// The edges of a levelled graph at the end of the layout.
pub open spec fn finished_edges(h: GraphView) -> Seq<EdgeView> {
    flag_crossings(routed(finished_nodes(h), unit_edges(h)))
}

/// Each node as its id, label, doubled coordinates and dummy flag.
pub open spec fn node_entries(nodes: Seq<NodeView>) -> Seq<(i32, Seq<char>, i64, i64, bool)> {
    nodes.map_values(|n: NodeView| (n.id, n.label, n.x2, n.y2, n.is_dummy))
}

/// Each edge as its original source, route and crossing flag.
pub open spec fn route_entries(edges: Seq<EdgeView>) -> Seq<(i32, Seq<(i64, i64)>, bool)> {
    edges.map_values(|e: EdgeView| (e.original_source, e.route, e.crossing))
}

/// The report on laid-out nodes and edges: the nodes in their order, the
/// edge routes sorted by the (source, target) ids of the routed edges.
pub open spec fn report(nodes: Seq<NodeView>, edges: Seq<EdgeView>) -> LayoutView {
    LayoutView { nodes_positions: node_entries(nodes), edges_routes: route_entries(sorted_by_ends(edges)) }
}

/// The report lists each node in order with its id, label, coordinates and
/// dummy flag, and each edge, in the order sorted by ends, with its original
/// source, its route and its crossing flag.
pub proof fn law_report_fields(nodes: Seq<NodeView>, edges: Seq<EdgeView>)
    ensures
        report(nodes, edges).nodes_positions.len() == nodes.len(),
        forall|i: int|
            0 <= i < nodes.len() ==> #[trigger] report(nodes, edges).nodes_positions[i] == (
                nodes[i].id,
                nodes[i].label,
                nodes[i].x2,
                nodes[i].y2,
                nodes[i].is_dummy,
            ),
        report(nodes, edges).edges_routes.len() == edges.len(),
        forall|j: int|
            0 <= j < edges.len() ==> #[trigger] report(nodes, edges).edges_routes[j] == (
                sorted_by_ends(edges)[j].original_source,
                sorted_by_ends(edges)[j].route,
                sorted_by_ends(edges)[j].crossing,
            ),
{
    law_sorted_by_ends(edges, EdgeView { original_source: 0, source: 0, target: 0, route: Seq::empty(), crossing: false });
}

/// What the layout of the graph reports.
pub open spec fn layout_of(g: GraphView) -> LayoutView {
    report(finished_nodes(after_levels(g)), finished_edges(after_levels(g)))
}

/// The graph can be laid out: every edge joins two nodes, and the dummy
/// nodes that the layout inserts keep all ids and counts within `i32`.
pub open spec fn layout_possible(g: GraphView) -> bool {
    &&& endpoints_present(g.nodes, g.edges)
    &&& g.next_id + dummy_count(g) <= i32::MAX
    &&& g.nodes.len() + dummy_count(g) <= i32::MAX
    &&& g.edges.len() + dummy_count(g) <= i32::MAX
}

/// The graph that adding the labels as nodes and the pairs as edges to an
/// empty graph builds.
pub open spec fn built_graph(labels: Seq<Seq<char>>, pairs: Seq<(i32, i32)>) -> GraphView {
    GraphView {
        nodes: Seq::new(labels.len(), |i: int| fresh_node(i, labels[i], false)),
        edges: Seq::new(pairs.len(), |k: int| fresh_edge(pairs[k].0, pairs[k].1)),
        next_id: labels.len() as int,
    }
}

proof fn lemma_has_id_concat(s: Seq<NodeView>, t: Seq<NodeView>, id: i32)
    ensures
        has_id(s, id) ==> has_id(s + t, id),
        has_id(t, id) ==> has_id(s + t, id),
{
    if has_id(s, id) {
        let i = choose|i: int| 0 <= i < s.len() && s[i].id == id;
        assert((s + t)[i].id == id);
    }
    if has_id(t, id) {
        let i = choose|i: int| 0 <= i < t.len() && t[i].id == id;
        assert((s + t)[s.len() + i].id == id);
    }
}

pub(crate) proof fn lemma_expanded_len(nodes: Seq<NodeView>, edges: Seq<EdgeView>, next_id: int, k: int)
    requires
        0 <= k <= edges.len(),
    ensures
        expanded_edges(nodes, edges, next_id, k).len() == k + dummies_before(nodes, edges, k),
    decreases k,
{
    if k > 0 {
        lemma_expanded_len(nodes, edges, next_id, k - 1);
    }
}

/// Breaking long edges keeps every edge between two nodes.
pub(crate) proof fn lemma_expanded_endpoints(nodes: Seq<NodeView>, edges: Seq<EdgeView>, next_id: int, k: int)
    requires
        0 <= k <= edges.len(),
        endpoints_present(nodes, edges),
    ensures
        endpoints_present(nodes + added_nodes(nodes, edges, next_id, k), expanded_edges(nodes, edges, next_id, k)),
    decreases k,
{
    if k > 0 {
        lemma_expanded_endpoints(nodes, edges, next_id, k - 1);
        let prev_nodes = nodes + added_nodes(nodes, edges, next_id, k - 1);
        let prev_edges = expanded_edges(nodes, edges, next_id, k - 1);
        let e = edges[k - 1];
        let first = next_id + dummies_before(nodes, edges, k - 1);
        let extra = dummy_nodes(nodes, e, first);
        let cur_nodes = nodes + added_nodes(nodes, edges, next_id, k);
        let cur_edges = expanded_edges(nodes, edges, next_id, k);
        assert(cur_nodes =~= prev_nodes + extra);
        let chain = expanded_edge(nodes, e, first);
        assert(cur_edges == prev_edges + chain);
        assert(has_id(nodes, e.source) && has_id(nodes, e.target));
        lemma_has_id_concat(nodes, added_nodes(nodes, edges, next_id, k - 1), e.source);
        lemma_has_id_concat(nodes, added_nodes(nodes, edges, next_id, k - 1), e.target);
        assert forall|j: int| 0 <= j < cur_edges.len() implies has_id(cur_nodes, #[trigger] cur_edges[j].source)
            && has_id(cur_nodes, cur_edges[j].target) by {
            if j < prev_edges.len() {
                assert(cur_edges[j] == prev_edges[j]);
                lemma_has_id_concat(prev_nodes, extra, prev_edges[j].source);
                lemma_has_id_concat(prev_nodes, extra, prev_edges[j].target);
            } else {
                let i = j - prev_edges.len();
                let d = span(nodes, e);
                let ce = cur_edges[j];
                assert(ce == chain[i]);
                lemma_has_id_concat(prev_nodes, extra, e.source);
                lemma_has_id_concat(prev_nodes, extra, e.target);
                if d > 1 {
                    if i > 0 {
                        assert(extra[i - 1].id == ce.source);
                        lemma_has_id_concat(prev_nodes, extra, ce.source);
                    }
                    if i < d - 1 {
                        assert(extra[i].id == ce.target);
                        lemma_has_id_concat(prev_nodes, extra, ce.target);
                    }
                }
            }
        }
    }
}


/// Nodes that agree on their ids carry the endpoints of the same edges.
pub(crate) proof fn lemma_endpoints_same_ids(a: Seq<NodeView>, b: Seq<NodeView>, edges: Seq<EdgeView>)
    requires
        a.len() == b.len(),
        forall|i: int| 0 <= i < a.len() ==> #[trigger] a[i].id == b[i].id,
        endpoints_present(b, edges),
    ensures
        endpoints_present(a, edges),
{
    assert forall|k: int| 0 <= k < edges.len() implies has_id(a, #[trigger] edges[k].source) && has_id(
        a,
        edges[k].target,
    ) by {
        lemma_same_ids(a, b, edges[k].source);
        lemma_same_ids(a, b, edges[k].target);
    }
}

/// After levelling, every edge still joins two nodes and descends a span
/// that fits an `i32`.
pub(crate) proof fn lemma_levelled_ready(g: GraphView)
    requires
        endpoints_present(g.nodes, g.edges),
        g.nodes.len() <= i32::MAX,
        forall|v: int|
            0 <= v < g.nodes.len() ==> 0 <= #[trigger] layered_levels(g.nodes, g.edges)[v] <= g.nodes.len(),
    ensures
        endpoints_present(after_levels(g).nodes, g.edges),
        spans_fit(after_levels(g).nodes, g.edges),
{
    let h = after_levels(g);
    let lv = layered_levels(g.nodes, g.edges);
    lemma_endpoints_same_ids(h.nodes, g.nodes, g.edges);
    assert forall|k: int| 0 <= k < g.edges.len() implies i32::MIN <= #[trigger] span(h.nodes, g.edges[k])
        <= i32::MAX by {
        let s = g.edges[k].source;
        let t = g.edges[k].target;
        assert(has_id(g.nodes, s) && has_id(g.nodes, t));
        lemma_same_ids(h.nodes, g.nodes, s);
        lemma_same_ids(h.nodes, g.nodes, t);
        lemma_index_of_exists(g.nodes, s);
        lemma_index_of_exists(g.nodes, t);
        let is = index_of(g.nodes, s);
        let it = index_of(g.nodes, t);
        assert(0 <= lv[is] <= g.nodes.len());
        assert(0 <= lv[it] <= g.nodes.len());
    }
}

/// The span of an edge depends on the ids and levels of the nodes alone.
pub(crate) proof fn lemma_span_same_levels(a: Seq<NodeView>, b: Seq<NodeView>, e: EdgeView)
    requires
        a.len() == b.len(),
        forall|i: int| 0 <= i < a.len() ==> #[trigger] a[i].id == b[i].id && a[i].level == b[i].level,
        has_id(b, e.source),
        has_id(b, e.target),
    ensures
        span(a, e) == span(b, e),
{
    lemma_same_ids(a, b, e.source);
    lemma_same_ids(a, b, e.target);
    lemma_index_of_exists(b, e.source);
    lemma_index_of_exists(b, e.target);
    let is = index_of(b, e.source);
    let it = index_of(b, e.target);
    assert(a[is].id == b[is].id && a[is].level == b[is].level);
    assert(a[it].id == b[it].id && a[it].level == b[it].level);
}

/// In the finished layout every edge descends at most one level, and
/// exactly one when the graph has no cycle.
pub(crate) proof fn lemma_layout_unit_spans(g: GraphView, done: Seq<bool>, rank: Seq<nat>)
    requires
        g.well_formed(),
        layout_possible(g),
        is_layering(g.nodes, g.edges, layered_levels(g.nodes, g.edges), done, rank),
        forall|v: int|
            0 <= v < g.nodes.len() ==> 0 <= #[trigger] layered_levels(g.nodes, g.edges)[v] <= g.nodes.len(),
    ensures
        finished_edges(after_levels(g)).len() == unit_edges(after_levels(g)).len(),
        forall|j: int|
            0 <= j < finished_edges(after_levels(g)).len() ==> span(
                finished_nodes(after_levels(g)),
                #[trigger] finished_edges(after_levels(g))[j],
            ) <= 1,
        acyclic(g.nodes, g.edges) ==> forall|j: int|
            0 <= j < finished_edges(after_levels(g)).len() ==> span(
                finished_nodes(after_levels(g)),
                #[trigger] finished_edges(after_levels(g))[j],
            ) == 1,
        forall|j: int|
            0 <= j < unit_edges(after_levels(g)).len() ==> span(
                expanded_nodes(after_levels(g)),
                #[trigger] unit_edges(after_levels(g))[j],
            ) <= 1,
        acyclic(g.nodes, g.edges) ==> forall|j: int|
            0 <= j < unit_edges(after_levels(g)).len() ==> span(
                expanded_nodes(after_levels(g)),
                #[trigger] unit_edges(after_levels(g))[j],
            ) == 1,
{
    let h = after_levels(g);
    let lv = layered_levels(g.nodes, g.edges);
    let m = g.edges.len() as int;
    let n = g.nodes.len() as int;
    lemma_dummies_before_nonneg(h.nodes, h.edges, m);
    lemma_levelled_ready(g);
    assert(ids_distinct(h.nodes)) by {
        assert forall|p: int, q: int| 0 <= p < n && 0 <= q < n && p != q implies h.nodes[p].id != h.nodes[q].id by {
            assert(h.nodes[p].id == g.nodes[p].id);
            assert(h.nodes[q].id == g.nodes[q].id);
        }
    }
    let big = expanded_nodes(h);
    let unit = unit_edges(h);
    let fin = finished_nodes(h);
    lemma_expanded_endpoints(h.nodes, h.edges, h.next_id, m);
    lemma_place_layers_below_keeps(big, unit, default_grid(), i32::MAX + 1);
    assert forall|j: int| 0 <= j < unit.len() implies span(fin, #[trigger] finished_edges(h)[j]) == span(big, unit[j]) by {
        assert(finished_edges(h)[j].source == unit[j].source);
        assert(finished_edges(h)[j].target == unit[j].target);
        assert(has_id(big, unit[j].source) && has_id(big, unit[j].target));
        lemma_span_same_levels(fin, big, unit[j]);
    }
    assert forall|j: int| 0 <= j < unit.len() implies span(big, #[trigger] unit[j]) <= 1 && (span(big, unit[j]) == 1
        || (h.edges.contains(unit[j]) && span(big, unit[j]) == span(h.nodes, unit[j]))) by {
        law_expanded_unit_steps(h.nodes, h.edges, h.next_id, j);
    }
    if acyclic(g.nodes, g.edges) {
        assert forall|k: int| 0 <= k < m implies span(h.nodes, #[trigger] g.edges[k]) >= 1 by {
            let s = g.edges[k].source;
            let t = g.edges[k].target;
            assert(has_id(g.nodes, s) && has_id(g.nodes, t));
            lemma_index_of_exists(g.nodes, s);
            let is = index_of(g.nodes, s);
            law_acyclic_all_reached(g.nodes, g.edges, lv, done, rank, is);
            law_edges_descend(g.nodes, g.edges, lv, done, rank, k);
            lemma_index_of_exists(g.nodes, t);
            let it = index_of(g.nodes, t);
            lemma_same_ids(h.nodes, g.nodes, s);
            lemma_same_ids(h.nodes, g.nodes, t);
            assert(0 <= lv[is] <= n && 0 <= lv[it] <= n);
        }
        assert forall|j: int| 0 <= j < unit.len() implies span(big, #[trigger] unit[j]) == 1 by {
            if span(big, unit[j]) != 1 {
                let k = choose|k: int| 0 <= k < m && h.edges[k] == unit[j];
                assert(span(h.nodes, g.edges[k]) >= 1);
            }
        }
    }
}

impl Graph {
    /// Number of dummy nodes that breaking the long edges inserts.
    fn count_dummies(&self) -> (d: u128)
        requires
            endpoints_present(self@.nodes, self@.edges),
        ensures
            d == dummies_before(self@.nodes, self@.edges, self@.edges.len() as int),
            d <= self@.edges.len() * 0x2_0000_0000,
    {
        let ghost nodes = self@.nodes;
        let ghost edges = self@.edges;
        let m = self.edges.len();
        assert(self.edges@.len() == m);
        let mut d: u128 = 0;
        let mut k: usize = 0;
        while k < m
            invariant
                nodes == self@.nodes,
                edges == self@.edges,
                m == edges.len(),
                endpoints_present(nodes, edges),
                k <= m,
                d == dummies_before(nodes, edges, k as int),
                d <= k * 0x2_0000_0000,
            decreases m - k,
        {
            assert(self.edges@[k as int]@ == edges[k as int]);
            let ghost kk = k as int;
            assert(has_id(nodes, edges[kk].source));
            assert(has_id(nodes, edges[kk].target));
            let sl = self.level_at(self.edges[k].source);
            let tl = self.level_at(self.edges[k].target);
            let diff = tl as i64 - sl as i64;
            if diff > 1 {
                d = d + (diff - 1) as u128;
            }
            k += 1;
        }
        d
    }

    /// The report on the current nodes and edges.
    fn report_of(&self) -> (r: LayoutResult)
        ensures
            r@ == report(self@.nodes, self@.edges),
    {
        let ghost nodes = self@.nodes;
        let ghost edges = self@.edges;
        let n = self.nodes.len();
        let m = self.edges.len();
        let mut np: Vec<(i32, String, i64, i64, bool)> = Vec::new();
        let mut i: usize = 0;
        while i < n
            invariant
                nodes == self@.nodes,
                n == nodes.len(),
                i <= n,
                np@.len() == i,
                forall|j: int|
                    0 <= j < i ==> {
                        let p = #[trigger] np@[j];
                        (p.0, p.1@, p.2, p.3, p.4) == (nodes[j].id, nodes[j].label, nodes[j].x2, nodes[j].y2, nodes[j].is_dummy)
                    },
            decreases n - i,
        {
            assert(self.nodes@[i as int]@ == nodes[i as int]);
            let node = &self.nodes[i];
            np.push((node.id, node.string.clone(), node.x2, node.y2, node.is_dummy));
            i += 1;
        }
        let sorted = sort_by_ends(&self.edges);
        let ghost se = sorted_by_ends(edges);
        assert(sorted@.len() == se.len());
        let ms = sorted.len();
        let mut er: Vec<(i32, Vec<(i64, i64)>, bool)> = Vec::new();
        let mut k: usize = 0;
        while k < ms
            invariant
                se == sorted_by_ends(edges),
                edges_view(sorted@) == se,
                ms == se.len(),
                k <= ms,
                er@.len() == k,
                forall|j: int|
                    0 <= j < k ==> {
                        let r = #[trigger] er@[j];
                        (r.0, r.1@, r.2) == (se[j].original_source, se[j].route, se[j].crossing)
                    },
            decreases ms - k,
        {
            assert(sorted@[k as int]@ == se[k as int]);
            let c = copy_edge(&sorted[k]);
            er.push((c.original_source, c.route, c.crossing));
            k += 1;
        }
        let r = LayoutResult { nodes_positions: np, edges_routes: er };
        proof {
            assert(r@.nodes_positions =~= report(nodes, edges).nodes_positions);
            assert(r@.edges_routes =~= report(nodes, edges).edges_routes);
        }
        r
    }

    /// Breaks the long edges of a levelled graph, places, routes and checks
    /// the crossings, and reports the result.
    fn finish_layout(&mut self) -> (r: LayoutResult)
        requires
            old(self)@.well_formed(),
            endpoints_present(old(self)@.nodes, old(self)@.edges),
            spans_fit(old(self)@.nodes, old(self)@.edges),
            old(self)@.next_id + dummies_of(old(self)@) <= i32::MAX,
            old(self)@.nodes.len() + dummies_of(old(self)@) <= i32::MAX,
            old(self)@.edges.len() + dummies_of(old(self)@) <= i32::MAX,
        ensures
            r@ == report(finished_nodes(old(self)@), finished_edges(old(self)@)),
            final(self)@.nodes == finished_nodes(old(self)@),
            final(self)@.edges == finished_edges(old(self)@),
            final(self)@.next_id == old(self)@.next_id + dummies_of(old(self)@),
            old(self)@.ids_are_positions() ==> final(self)@.ids_are_positions(),
    {
        let ghost h = self@;
        let ghost m = h.edges.len() as int;
        self.expand_long_edges();
        proof {
            lemma_expanded_endpoints(h.nodes, h.edges, h.next_id, m);
            lemma_expanded_len(h.nodes, h.edges, h.next_id, m);
            lemma_added_nodes_len(h.nodes, h.edges, h.next_id, m);
            assert(self@.nodes == expanded_nodes(h));
            assert(self@.edges == unit_edges(h));
        }
        let grid = GridLayout::new();
        assert(grid == default_grid());
        self.compute_horizontal_positions(&grid);
        proof {
            lemma_place_layers_below_keeps(expanded_nodes(h), unit_edges(h), default_grid(), i32::MAX + 1);
            lemma_endpoints_same_ids(finished_nodes(h), expanded_nodes(h), unit_edges(h));
        }
        self.route_edges_straight();
        self.crossing_edges();
        self.report_of()
    }

    /// Lays the graph out: assigns levels, breaks long edges into unit
    /// steps through dummy nodes, places the nodes, draws the edges as
    /// straight segments, flags crossing edges and reports the result.
    pub fn compute_layout_result(&mut self) -> (r: LayoutResult)
        requires
            old(self)@.well_formed(),
            layout_possible(old(self)@),
        ensures
            r@ == layout_of(old(self)@),
            final(self)@.nodes == finished_nodes(after_levels(old(self)@)),
            final(self)@.edges == finished_edges(after_levels(old(self)@)),
            final(self)@.next_id == old(self)@.next_id + dummy_count(old(self)@),
            old(self)@.ids_are_positions() ==> final(self)@.ids_are_positions(),
            has_layering(old(self)@.nodes, old(self)@.edges, layered_levels(old(self)@.nodes, old(self)@.edges)),
            forall|v: int|
                0 <= v < old(self)@.nodes.len() ==> 0 <= #[trigger] layered_levels(old(self)@.nodes, old(self)@.edges)[v]
                    <= old(self)@.nodes.len(),
            r@.nodes_positions == node_entries(final(self)@.nodes),
            r@.edges_routes == route_entries(sorted_by_ends(final(self)@.edges)),
            r@.nodes_positions.len() == final(self)@.nodes.len(),
            forall|i: int|
                0 <= i < final(self)@.nodes.len() ==> #[trigger] r@.nodes_positions[i] == (
                    final(self)@.nodes[i].id,
                    final(self)@.nodes[i].label,
                    final(self)@.nodes[i].x2,
                    final(self)@.nodes[i].y2,
                    final(self)@.nodes[i].is_dummy,
                ),
            r@.edges_routes.len() == final(self)@.edges.len(),
            forall|j: int|
                0 <= j < final(self)@.edges.len() ==> #[trigger] r@.edges_routes[j] == (
                    sorted_by_ends(final(self)@.edges)[j].original_source,
                    sorted_by_ends(final(self)@.edges)[j].route,
                    sorted_by_ends(final(self)@.edges)[j].crossing,
                ),
            forall|j: int|
                0 <= j < final(self)@.edges.len() ==> span(final(self)@.nodes, #[trigger] final(self)@.edges[j])
                    <= 1,
            acyclic(old(self)@.nodes, old(self)@.edges) ==> forall|j: int|
                0 <= j < final(self)@.edges.len() ==> span(final(self)@.nodes, #[trigger] final(self)@.edges[j])
                    == 1,
    {
        let ghost g = self@;
        proof {
            lemma_dummies_before_nonneg(levelled(g.nodes, g.edges), g.edges, g.edges.len() as int);
            assert forall|k: int| 0 <= k < g.edges.len() implies has_id(g.nodes, #[trigger] g.edges[k].target) by {
                assert(has_id(g.nodes, g.edges[k].source));
            }
        }
        self.compute_node_levels();
        proof {
            lemma_levelled_ready(g);
            let lv = layered_levels(g.nodes, g.edges);
            let d = reached(g.nodes, g.edges);
            let r = choose|r: Seq<nat>| #[trigger] is_layering(g.nodes, g.edges, lv, d, r);
            lemma_layout_unit_spans(g, d, r);
        }
        let r = self.finish_layout();
        proof {
            law_report_fields(self@.nodes, self@.edges);
        }
        r
    }
}


/// The layout is the composition of its steps, in this order: levels
/// (`compute_node_levels`), breaking long edges (`expand_long_edges`),
/// placement on the grid of `GridLayout::new` (`compute_horizontal_positions`),
/// straight routes (`route_edges_straight`) and crossing flags
/// (`crossing_edges`); the report lists the nodes in their order and the
/// routes sorted by the ends of the routed edges.
pub proof fn law_layout_steps(g: GraphView)
    ensures
        ({
            let levelled_nodes = with_levels(g.nodes, layered_levels(g.nodes, g.edges));
            let nodes1 = levelled_nodes + added_nodes(levelled_nodes, g.edges, g.next_id, g.edges.len() as int);
            let edges1 = expanded_edges(levelled_nodes, g.edges, g.next_id, g.edges.len() as int);
            let nodes2 = placed(nodes1, edges1, default_grid());
            let edges2 = flag_crossings(routed(nodes2, edges1));
            layout_of(g) == LayoutView {
                nodes_positions: node_entries(nodes2),
                edges_routes: route_entries(sorted_by_ends(edges2)),
            }
        }),
{
}

/// `built_graph` is what the graph's own operations build: the empty graph
/// of `Graph::new`, then `add_node` of each label in order (node `i` gets id
/// `i`), then `add_edge` of each pair in order. Such a graph satisfies what
/// `compute_layout_result` requires of its shape.
pub proof fn law_built_graph_steps(labels: Seq<Seq<char>>, pairs: Seq<(i32, i32)>, label: Seq<char>, pair: (i32, i32))
    ensures
        built_graph(Seq::empty(), Seq::empty()) == (GraphView {
            nodes: Seq::empty(),
            edges: Seq::empty(),
            next_id: 0,
        }),
        built_graph(labels.push(label), Seq::empty()) == (GraphView {
            nodes: built_graph(labels, Seq::empty()).nodes.push(fresh_node(labels.len() as int, label, false)),
            edges: Seq::empty(),
            next_id: labels.len() + 1int,
        }),
        built_graph(labels, pairs.push(pair)) == (GraphView {
            edges: built_graph(labels, pairs).edges.push(fresh_edge(pair.0, pair.1)),
            ..built_graph(labels, pairs)
        }),
        labels.len() <= i32::MAX ==> built_graph(labels, pairs).ids_are_positions() && built_graph(
            labels,
            pairs,
        ).well_formed(),
{
    assert(built_graph(Seq::empty(), Seq::empty()).nodes =~= Seq::<NodeView>::empty());
    assert(built_graph(Seq::empty(), Seq::empty()).edges =~= Seq::<EdgeView>::empty());
    assert(built_graph(labels.push(label), Seq::empty()).nodes =~= built_graph(labels, Seq::empty()).nodes.push(
        fresh_node(labels.len() as int, label, false),
    ));
    assert(built_graph(labels.push(label), Seq::empty()).edges =~= Seq::<EdgeView>::empty());
    assert(built_graph(labels, pairs.push(pair)).edges =~= built_graph(labels, pairs).edges.push(
        fresh_edge(pair.0, pair.1),
    ));
    assert(built_graph(labels, pairs.push(pair)).nodes =~= built_graph(labels, pairs).nodes);
}

/// The labels as character sequences.
pub open spec fn labels_view(labels: Seq<String>) -> Seq<Seq<char>> {
    labels.map_values(|s: String| s@)
}

/// Lays out the graph whose nodes carry `labels` (node `i` gets id `i`)
/// and whose edges are `pairs` of source and target ids. Gives `None` when
/// an edge names a missing node or the ids or counts would leave `i32`.
pub fn layout_graph(labels: &Vec<String>, pairs: &Vec<(i32, i32)>) -> (res: Option<LayoutResult>)
    ensures
        match res {
            Some(r) => {
                &&& labels@.len() <= i32::MAX
                &&& layout_possible(built_graph(labels_view(labels@), pairs@))
                &&& r@ == layout_of(built_graph(labels_view(labels@), pairs@))
                &&& r@.nodes_positions == node_entries(
                    finished_nodes(after_levels(built_graph(labels_view(labels@), pairs@))),
                )
                &&& r@.edges_routes == route_entries(
                    sorted_by_ends(finished_edges(after_levels(built_graph(labels_view(labels@), pairs@)))),
                )
                &&& {
                    let fin = finished_nodes(after_levels(built_graph(labels_view(labels@), pairs@)));
                    let sorted = sorted_by_ends(
                        finished_edges(after_levels(built_graph(labels_view(labels@), pairs@))),
                    );
                    &&& r@.nodes_positions.len() == fin.len()
                    &&& forall|i: int|
                        0 <= i < fin.len() ==> #[trigger] r@.nodes_positions[i] == (
                            fin[i].id,
                            fin[i].label,
                            fin[i].x2,
                            fin[i].y2,
                            fin[i].is_dummy,
                        )
                    &&& r@.edges_routes.len() == sorted.len()
                    &&& forall|j: int|
                        0 <= j < sorted.len() ==> #[trigger] r@.edges_routes[j] == (
                            sorted[j].original_source,
                            sorted[j].route,
                            sorted[j].crossing,
                        )
                }
            },
            None => !(labels@.len() <= i32::MAX && layout_possible(
                built_graph(labels_view(labels@), pairs@),
            )),
        },
{
    let ghost lv = labels_view(labels@);
    let ghost bg = built_graph(lv, pairs@);
    let n = labels.len();
    if n > 0x7fff_ffff {
        return None;
    }
    let mut g = Graph::new();
    let mut i: usize = 0;
    while i < n
        invariant
            n == labels@.len(),
            n <= i32::MAX,
            lv == labels_view(labels@),
            i <= n,
            g@.nodes == Seq::new(i as nat, |j: int| fresh_node(j, lv[j], false)),
            g@.edges == Seq::<EdgeView>::empty(),
            g@.next_id == i,
            g@.well_formed(),
        decreases n - i,
    {
        let label = labels[i].clone();
        g.add_node(label);
        proof {
            assert(g@.nodes =~= Seq::new((i + 1) as nat, |j: int| fresh_node(j, lv[j], false)));
        }
        i += 1;
    }
    let m = pairs.len();
    let mut k: usize = 0;
    while k < m
        invariant
            m == pairs@.len(),
            k <= m,
            bg == built_graph(lv, pairs@),
            lv == labels_view(labels@),
            g@.nodes == bg.nodes,
            g@.next_id == bg.next_id,
            g@.edges == Seq::new(k as nat, |j: int| fresh_edge(pairs@[j].0, pairs@[j].1)),
            g@.well_formed(),
        decreases m - k,
    {
        let (s, t) = pairs[k];
        g.add_edge(s, t);
        proof {
            assert(g@.edges =~= Seq::new((k + 1) as nat, |j: int| fresh_edge(pairs@[j].0, pairs@[j].1)));
        }
        k += 1;
    }
    proof {
        assert(g@.edges =~= bg.edges);
        assert(g@ == bg);
    }
    k = 0;
    while k < m
        invariant
            m == pairs@.len(),
            k <= m,
            g@ == bg,
            bg == built_graph(lv, pairs@),
            lv == labels_view(labels@),
            bg.edges.len() == m,
            forall|j: int| 0 <= j < k ==> has_id(bg.nodes, #[trigger] bg.edges[j].source) && has_id(
                bg.nodes,
                bg.edges[j].target,
            ),
        decreases m - k,
    {
        let (s, t) = pairs[k];
        let ghost kk = k as int;
        assert(bg.edges[kk] == fresh_edge(pairs@[kk].0, pairs@[kk].1));
        assert(bg.edges[kk].source == s && bg.edges[kk].target == t);
        let fs = find_node(&g.nodes, s);
        let ft = find_node(&g.nodes, t);
        if fs.is_none() || ft.is_none() {
            proof {
                assert(!endpoints_present(bg.nodes, bg.edges)) by {
                    assert(!(has_id(bg.nodes, bg.edges[kk].source) && has_id(bg.nodes, bg.edges[kk].target)));
                }
            }
            return None;
        }
        assert(has_id(bg.nodes, bg.edges[kk].source) && has_id(bg.nodes, bg.edges[kk].target));
        assert forall|j: int| 0 <= j < k + 1 implies has_id(bg.nodes, #[trigger] bg.edges[j].source) && has_id(
            bg.nodes,
            bg.edges[j].target,
        ) by {
            if j == kk {
            }
        }
        k += 1;
    }
    proof {
        assert(endpoints_present(bg.nodes, bg.edges));
        assert forall|j: int| 0 <= j < m implies has_id(bg.nodes, #[trigger] bg.edges[j].target) by {
            assert(has_id(bg.nodes, bg.edges[j].source));
        }
    }
    g.compute_node_levels();
    proof {
        lemma_levelled_ready(bg);
    }
    let d = g.count_dummies();
    if (n as u128) + d > 0x7fff_ffff || (m as u128) + d > 0x7fff_ffff {
        return None;
    }
    let r = g.finish_layout();
    proof {
        law_report_fields(g@.nodes, g@.edges);
        law_sorted_by_ends(g@.edges, EdgeView { original_source: 0, source: 0, target: 0, route: Seq::empty(), crossing: false });
    }
    Some(r)
}

} // verus!
