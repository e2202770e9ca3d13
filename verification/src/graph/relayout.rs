use vstd::prelude::*;

use crate::edge::EdgeView;
use crate::graph::expand::{added_nodes, dummies_before, dummy_nodes, expanded_edge, expanded_edges, lemma_added_ids, lemma_added_nodes_len, lemma_dummies_before_nonneg, lemma_expand_step, level_of, span};
use crate::graph::positions::{key_less, layer_rank, lemma_place_layers_below_keeps, parent_count, parent_sum, place_layer, place_layers_below, placed, score_num};
use crate::graph::laws::{edges_go_down, law_crossings_idempotent, law_placement_idempotent, lemma_all_short, lemma_level_from_bounds};
use crate::graph::layout::{after_levels, default_grid, dummy_count, expanded_nodes, finished_edges, finished_nodes, layout_of, layout_possible, lemma_endpoints_same_ids, lemma_expanded_endpoints, lemma_expanded_len, lemma_layout_unit_spans, lemma_levelled_ready, unit_edges};
use crate::graph::levels::{acyclic, has_layering, is_layering, layered_levels, lemma_layered_levels, lemma_pending_zero, level_from, node_done};
use crate::graph::routing::{flag_crossings, routed};
use crate::graph::{endpoints_present, has_id, ids_distinct, index_of, lemma_index_of_distinct, lemma_index_of_exists, GraphView};
use crate::grid_layout::GridLayout;
use crate::node::NodeView;

verus! {

/// Some edge ends at the id.
pub open spec fn is_target(edges: Seq<EdgeView>, id: i32) -> bool {
    exists|i: int| 0 <= i < edges.len() && #[trigger] edges[i].target == id
}

/// Breaking long edges keeps every target an edge's target, and every
/// dummy node it adds has level at least 1 and an edge into it.
proof fn lemma_expanded_targets(nodes: Seq<NodeView>, edges: Seq<EdgeView>, next_id: int, k: int)
    requires
        0 <= k <= edges.len(),
        endpoints_present(nodes, edges),
        forall|i: int| 0 <= i < nodes.len() ==> #[trigger] nodes[i].level >= 0,
    ensures
        forall|j: int| 0 <= j < k ==> is_target(expanded_edges(nodes, edges, next_id, k), #[trigger] edges[j].target),
        forall|q: int|
            0 <= q < added_nodes(nodes, edges, next_id, k).len() ==> (#[trigger] added_nodes(
                nodes,
                edges,
                next_id,
                k,
            )[q]).level >= 1 && is_target(
                expanded_edges(nodes, edges, next_id, k),
                added_nodes(nodes, edges, next_id, k)[q].id,
            ),
    decreases k,
{
    if k > 0 {
        lemma_expanded_targets(nodes, edges, next_id, k - 1);
        lemma_expand_step(nodes, edges, next_id, k - 1);
        let prev = expanded_edges(nodes, edges, next_id, k - 1);
        let pa = added_nodes(nodes, edges, next_id, k - 1);
        let e = edges[k - 1];
        let first = next_id + dummies_before(nodes, edges, k - 1);
        let ext = expanded_edge(nodes, e, first);
        let dn = dummy_nodes(nodes, e, first);
        let cur = expanded_edges(nodes, edges, next_id, k);
        let ca = added_nodes(nodes, edges, next_id, k);
        assert(cur == prev + ext);
        assert(ca == pa + dn);
        let d = span(nodes, e);
        assert(ext.len() >= 1 && ext[ext.len() - 1].target == e.target);
        assert forall|j: int| 0 <= j < k implies is_target(cur, #[trigger] edges[j].target) by {
            if j < k - 1 {
                let i = choose|i: int| 0 <= i < prev.len() && #[trigger] prev[i].target == edges[j].target;
                assert(cur[i] == prev[i]);
            } else {
                assert(cur[prev.len() + ext.len() - 1] == ext[ext.len() - 1]);
            }
        }
        assert(has_id(nodes, e.source));
        lemma_index_of_exists(nodes, e.source);
        assert(level_of(nodes, e.source) >= 0);
        assert forall|q: int| 0 <= q < ca.len() implies (#[trigger] ca[q]).level >= 1 && is_target(cur, ca[q].id) by {
            if q < pa.len() {
                assert(ca[q] == pa[q]);
                let i = choose|i: int| 0 <= i < prev.len() && #[trigger] prev[i].target == pa[q].id;
                assert(cur[i] == prev[i]);
            } else {
                let r = q - pa.len();
                assert(ca[q] == dn[r]);
                assert(d > 1);
                assert(has_id(nodes, e.target));
                lemma_index_of_exists(nodes, e.target);
                assert(ext[r].target == (first + r) as i32);
                assert(cur[prev.len() + r] == ext[r]);
            }
        }
    }
}


/// Two edge sequences join the same ids in the same order.
pub open spec fn same_ends_seq(a: Seq<EdgeView>, b: Seq<EdgeView>) -> bool {
    a.len() == b.len() && forall|k: int|
        0 <= k < a.len() ==> (#[trigger] a[k]).source == b[k].source && a[k].target == b[k].target
}

proof fn lemma_parents_same_ends(nodes: Seq<NodeView>, a: Seq<EdgeView>, b: Seq<EdgeView>, id: i32, k: int)
    requires
        same_ends_seq(a, b),
        0 <= k <= a.len(),
    ensures
        parent_sum(nodes, a, id, k) == parent_sum(nodes, b, id, k),
        parent_count(a, id, k) == parent_count(b, id, k),
    decreases k,
{
    if k > 0 {
        lemma_parents_same_ends(nodes, a, b, id, k - 1);
        assert(a[k - 1].source == b[k - 1].source);
    }
}

proof fn lemma_rank_same_ends(nodes: Seq<NodeView>, a: Seq<EdgeView>, b: Seq<EdgeView>, level: i32, id: i32, n: int)
    requires
        same_ends_seq(a, b),
        0 <= n <= nodes.len(),
    ensures
        layer_rank(nodes, a, level, id, n) == layer_rank(nodes, b, level, id, n),
    decreases n,
{
    if n > 0 {
        lemma_rank_same_ends(nodes, a, b, level, id, n - 1);
        lemma_parents_same_ends(nodes, a, b, id, a.len() as int);
        lemma_parents_same_ends(nodes, a, b, nodes[n - 1].id, a.len() as int);
        assert(key_less(nodes, a, nodes[n - 1].id, id) == key_less(nodes, b, nodes[n - 1].id, id));
    }
}

proof fn lemma_place_layer_same_ends(nodes: Seq<NodeView>, a: Seq<EdgeView>, b: Seq<EdgeView>, grid: GridLayout, level: i32)
    requires
        same_ends_seq(a, b),
    ensures
        place_layer(nodes, a, grid, level) == place_layer(nodes, b, grid, level),
{
    assert forall|i: int| 0 <= i < nodes.len() implies #[trigger] place_layer(nodes, a, grid, level)[i] == place_layer(
        nodes,
        b,
        grid,
        level,
    )[i] by {
        lemma_rank_same_ends(nodes, a, b, level, nodes[i].id, nodes.len() as int);
    }
    assert(place_layer(nodes, a, grid, level) =~= place_layer(nodes, b, grid, level));
}

proof fn lemma_placed_below_same_ends(nodes: Seq<NodeView>, a: Seq<EdgeView>, b: Seq<EdgeView>, grid: GridLayout, bound: int)
    requires
        same_ends_seq(a, b),
    ensures
        place_layers_below(nodes, a, grid, bound) == place_layers_below(nodes, b, grid, bound),
    decreases bound - i32::MIN,
{
    if bound > i32::MIN {
        lemma_placed_below_same_ends(nodes, a, b, grid, bound - 1);
        lemma_place_layer_same_ends(place_layers_below(nodes, a, grid, bound - 1), a, b, grid, (bound - 1) as i32);
    }
}

/// Placement reads of the edges only which ids they join.
pub proof fn lemma_placed_same_ends(nodes: Seq<NodeView>, a: Seq<EdgeView>, b: Seq<EdgeView>, grid: GridLayout)
    requires
        same_ends_seq(a, b),
    ensures
        placed(nodes, a, grid) == placed(nodes, b, grid),
{
    lemma_placed_below_same_ends(nodes, a, b, grid, i32::MAX + 1);
}


/// The level that edges into `id` impose when every one of them starts at
/// a reached node one level above `c`.
proof fn lemma_level_from_unit(
    nodes: Seq<NodeView>,
    edges: Seq<EdgeView>,
    done: Seq<bool>,
    levels: Seq<int>,
    id: i32,
    c: int,
    k: int,
)
    requires
        0 <= k <= edges.len(),
        c >= 1,
        forall|j: int|
            0 <= j < k && #[trigger] edges[j].target == id ==> node_done(nodes, done, edges[j].source)
                && levels[index_of(nodes, edges[j].source)] + 1 == c,
    ensures
        level_from(nodes, edges, done, levels, id, k) == if exists|j: int| 0 <= j < k && #[trigger] edges[j].target == id {
            c
        } else {
            0
        },
    decreases k,
{
    if k > 0 {
        lemma_level_from_unit(nodes, edges, done, levels, id, c, k - 1);
        if exists|j: int| 0 <= j < k - 1 && #[trigger] edges[j].target == id {
            let j = choose|j: int| 0 <= j < k - 1 && #[trigger] edges[j].target == id;
            assert(0 <= j < k && edges[j].target == id);
        }
        if edges[k - 1].target == id {
            assert(0 <= k - 1 < k && edges[k - 1].target == id);
        } else if exists|j: int| 0 <= j < k && #[trigger] edges[j].target == id {
            let j = choose|j: int| 0 <= j < k && #[trigger] edges[j].target == id;
            assert(0 <= j < k - 1 && edges[j].target == id);
        }
    }
}

/// Routing and flagging once more a graph that was just routed and
/// flagged changes nothing.
proof fn lemma_routes_fixed(nodes: Seq<NodeView>, unit: Seq<EdgeView>)
    ensures
        flag_crossings(routed(nodes, flag_crossings(routed(nodes, unit)))) == flag_crossings(routed(nodes, unit)),
        same_ends_seq(flag_crossings(routed(nodes, unit)), unit),
{
    let e = flag_crossings(routed(nodes, unit));
    assert(routed(nodes, e) =~= e);
    law_crossings_idempotent(routed(nodes, unit));
}

/// Breaking long edges keeps ids distinct and below the new counter.
proof fn lemma_expanded_ids(nodes: Seq<NodeView>, edges: Seq<EdgeView>, next_id: int)
    requires
        ids_distinct(nodes),
        0 <= next_id,
        forall|i: int| 0 <= i < nodes.len() ==> 0 <= #[trigger] nodes[i].id < next_id,
        next_id + dummies_before(nodes, edges, edges.len() as int) <= i32::MAX,
    ensures
        ids_distinct(nodes + added_nodes(nodes, edges, next_id, edges.len() as int)),
        forall|i: int|
            0 <= i < (nodes + added_nodes(nodes, edges, next_id, edges.len() as int)).len() ==> 0 <= #[trigger] (nodes
                + added_nodes(nodes, edges, next_id, edges.len() as int))[i].id < next_id + dummies_before(
                nodes,
                edges,
                edges.len() as int,
            ),
{
    let m = edges.len() as int;
    let added = added_nodes(nodes, edges, next_id, m);
    let big = nodes + added;
    let n = nodes.len() as int;
    lemma_added_nodes_len(nodes, edges, next_id, m);
    lemma_added_ids(nodes, edges, next_id, m);
    lemma_dummies_before_nonneg(nodes, edges, m);
    assert forall|p: int| 0 <= p < big.len() implies 0 <= #[trigger] big[p].id < next_id + dummies_before(nodes, edges, m) by {
        if p >= n {
            assert(big[p] == added[p - n]);
            assert(added[p - n].id == (next_id + (p - n)) as i32);
        }
    }
    assert forall|p: int, q: int| 0 <= p < big.len() && 0 <= q < big.len() && p != q implies big[p].id != big[q].id by {
        if p >= n {
            assert(big[p] == added[p - n]);
            assert(added[p - n].id == (next_id + (p - n)) as i32);
        }
        if q >= n {
            assert(big[q] == added[q - n]);
            assert(added[q - n].id == (next_id + (q - n)) as i32);
        }
    }
}

/// Laying out a second time a graph without cycles that was just laid out
/// changes nothing: the graph may be laid out again, no dummy node is
/// added, the nodes and edges stay, and the same result is reported.
/// (The levels that the first layout starts from are those that
/// `compute_node_levels` gives, as `compute_layout_result` ensures.)
#[verifier::spinoff_prover]
#[verifier::rlimit(40)]
pub proof fn law_relayout_stable(g: GraphView)
    requires
        g.well_formed(),
        layout_possible(g),
        acyclic(g.nodes, g.edges),
        has_layering(g.nodes, g.edges, layered_levels(g.nodes, g.edges)),
        forall|v: int|
            0 <= v < g.nodes.len() ==> 0 <= #[trigger] layered_levels(g.nodes, g.edges)[v] <= g.nodes.len(),
    ensures
        ({
            let h = GraphView {
                nodes: finished_nodes(after_levels(g)),
                edges: finished_edges(after_levels(g)),
                next_id: g.next_id + dummy_count(g),
            };
            &&& h.well_formed()
            &&& layout_possible(h)
            &&& dummy_count(h) == 0
            &&& finished_nodes(after_levels(h)) == h.nodes
            &&& finished_edges(after_levels(h)) == h.edges
            &&& layout_of(h) == layout_of(g)
        }),
{
    let n = g.nodes.len() as int;
    let m = g.edges.len() as int;
    let lv = layered_levels(g.nodes, g.edges);
    let (d0, r0) = choose|d: Seq<bool>, r: Seq<nat>| #[trigger] is_layering(g.nodes, g.edges, lv, d, r);
    let hl = after_levels(g);
    let n0 = hl.nodes;
    let n1 = expanded_nodes(hl);
    let e1 = unit_edges(hl);
    let f = finished_nodes(hl);
    let e = finished_edges(hl);
    let next = g.next_id + dummy_count(g);
    let h = GraphView { nodes: f, edges: e, next_id: next };
    let grid = default_grid();
    lemma_dummies_before_nonneg(n0, g.edges, m);
    lemma_levelled_ready(g);
    lemma_layout_unit_spans(g, d0, r0);
    // the shape of the laid-out graph
    assert(ids_distinct(n0)) by {
        assert forall|p: int, q: int| 0 <= p < n && 0 <= q < n && p != q implies n0[p].id != n0[q].id by {
            assert(n0[p].id == g.nodes[p].id && n0[q].id == g.nodes[q].id);
        }
    }
    assert forall|i: int| 0 <= i < n0.len() implies 0 <= #[trigger] n0[i].id < g.next_id by {
        assert(n0[i].id == g.nodes[i].id);
    }
    lemma_expanded_ids(n0, g.edges, g.next_id);
    lemma_expanded_endpoints(n0, g.edges, g.next_id, m);
    lemma_expanded_len(n0, g.edges, g.next_id, m);
    lemma_added_nodes_len(n0, g.edges, g.next_id, m);
    lemma_place_layers_below_keeps(n1, e1, grid, i32::MAX + 1);
    lemma_routes_fixed(f, e1);
    assert(ids_distinct(f)) by {
        assert forall|p: int, q: int| 0 <= p < f.len() && 0 <= q < f.len() && p != q implies f[p].id != f[q].id by {
            assert(f[p].id == n1[p].id && f[q].id == n1[q].id);
        }
    }
    assert forall|i: int| 0 <= i < f.len() implies 0 <= #[trigger] f[i].id < next by {
        assert(f[i].id == n1[i].id);
    }
    assert(h.well_formed());
    lemma_endpoints_same_ids(f, n1, e1);
    assert(endpoints_present(f, e)) by {
        assert forall|k: int| 0 <= k < e.len() implies has_id(f, #[trigger] e[k].source) && has_id(f, e[k].target) by {
            assert(e[k].source == e1[k].source && e[k].target == e1[k].target);
            assert(has_id(f, e1[k].source) && has_id(f, e1[k].target));
        }
    }
    // the levels of the laid-out graph are its own layering
    let lf = Seq::new(f.len(), |v: int| f[v].level as int);
    let done = Seq::new(f.len(), |v: int| true);
    let rank = Seq::new(f.len(), |v: int| f[v].level as nat);
    lemma_expanded_targets(n0, g.edges, g.next_id, m);
    assert forall|v: int| 0 <= v < f.len() implies #[trigger] f[v].level >= 0 && (f[v].level >= 1 ==> is_target(
        e,
        f[v].id,
    )) by {
        assert(f[v].level == n1[v].level && f[v].id == n1[v].id);
        let added = added_nodes(n0, g.edges, g.next_id, m);
        if v < n {
            assert(n1[v] == n0[v]);
            assert(n0[v].level == lv[v] as i32);
            if lv[v] >= 1 {
                assert(lv[v] == level_from(g.nodes, g.edges, d0, lv, g.nodes[v].id, m));
                lemma_level_from_bounds(g.nodes, g.edges, d0, lv, g.nodes[v].id, m);
                let j = choose|j: int| 0 <= j < m && #[trigger] g.edges[j].target == g.nodes[v].id;
                assert(is_target(e1, g.edges[j].target));
                let i = choose|i: int| 0 <= i < e1.len() && #[trigger] e1[i].target == g.edges[j].target;
                assert(e[i].target == e1[i].target);
            }
        } else {
            assert(n1[v] == added[v - n]);
            assert(added[v - n].level >= 1);
            let i = choose|i: int| 0 <= i < e1.len() && #[trigger] e1[i].target == added[v - n].id;
            assert(e[i].target == e1[i].target);
        }
    }
    let me = e.len() as int;
    assert forall|k: int| 0 <= k < me implies #[trigger] span(f, e[k]) == 1 && f[index_of(f, e[k].source)].level + 1
        == f[index_of(f, e[k].target)].level by {
        assert(has_id(f, e[k].source) && has_id(f, e[k].target));
    }
    assert(is_layering(f, e, lf, done, rank)) by {
        assert forall|v: int| 0 <= v < f.len() implies #[trigger] done[v] == (crate::graph::levels::pending_in(
            f,
            e,
            done,
            f[v].id,
            me,
        ) == 0) by {
            lemma_pending_zero(f, e, done, f[v].id, me);
            assert forall|j: int| 0 <= j < me && #[trigger] e[j].target == f[v].id implies node_done(f, done, e[j].source) by {
                assert(has_id(f, e[j].source));
                lemma_index_of_exists(f, e[j].source);
            }
        }
        assert forall|v: int, k: int|
            0 <= v < f.len() && done[v] && 0 <= k < me && #[trigger] e[k].target == #[trigger] f[v].id implies node_done(
            f,
            done,
            e[k].source,
        ) && rank[index_of(f, e[k].source)] < rank[v] by {
            lemma_index_of_distinct(f, v);
            lemma_index_of_exists(f, e[k].source);
            assert(span(f, e[k]) == 1);
            let u = index_of(f, e[k].source);
            assert(f[u].level >= 0);
        }
        assert forall|v: int| 0 <= v < f.len() implies #[trigger] lf[v] == level_from(f, e, done, lf, f[v].id, me) by {
            lemma_index_of_distinct(f, v);
            let c = f[v].level as int;
            assert forall|j: int| 0 <= j < me && #[trigger] e[j].target == f[v].id implies node_done(f, done, e[j].source)
                && lf[index_of(f, e[j].source)] + 1 == (if c >= 1 { c } else { 1 }) by {
                lemma_index_of_exists(f, e[j].source);
                assert(span(f, e[j]) == 1);
                let u = index_of(f, e[j].source);
                assert(f[u].level >= 0);
            }
            lemma_level_from_unit(f, e, done, lf, f[v].id, if c >= 1 { c } else { 1 }, me);
            if c >= 1 {
                assert(is_target(e, f[v].id));
                let i = choose|i: int| 0 <= i < e.len() && #[trigger] e[i].target == f[v].id;
                assert(0 <= i < me && e[i].target == f[v].id);
            } else {
                if exists|j: int| 0 <= j < me && #[trigger] e[j].target == f[v].id {
                    let j = choose|j: int| 0 <= j < me && #[trigger] e[j].target == f[v].id;
                    lemma_index_of_exists(f, e[j].source);
                    assert(span(f, e[j]) == 1);
                    let u = index_of(f, e[j].source);
                    assert(f[u].level >= 0);
                }
            }
        }
    }
    lemma_layered_levels(f, e, lf, done, rank);
    let hl2 = after_levels(h);
    assert(hl2.nodes =~= f);
    // nothing is left to break
    assert forall|j: int| 0 <= j < me implies span(f, #[trigger] e[j]) <= 1 by {}
    lemma_all_short(f, e, next, me);
    assert(e.take(me) =~= e);
    assert(dummy_count(h) == 0);
    assert(expanded_nodes(hl2) =~= f);
    assert(unit_edges(hl2) == e);
    // placement and routing repeat themselves
    lemma_placed_same_ends(f, e, e1, grid);
    assert(edges_go_down(n1, e1)) by {
        assert forall|k: int| 0 <= k < e1.len() && has_id(n1, #[trigger] e1[k].target) implies has_id(n1, e1[k].source)
            && level_of(n1, e1[k].source) < level_of(n1, e1[k].target) by {
            assert(span(n1, e1[k]) == 1);
        }
    }
    law_placement_idempotent(n1, e1, grid);
    assert(finished_nodes(hl2) == f);
    assert(finished_edges(hl2) == e);
    assert(layout_possible(h));
}

} // verus!
