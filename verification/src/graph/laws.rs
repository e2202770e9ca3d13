use vstd::prelude::*;

use crate::edge::EdgeView;
use crate::graph::expand::{added_nodes, lemma_added_ids, dummies_before, dummy_nodes, expanded_edge, expanded_edges, lemma_added_nodes_len, lemma_dummies_before_monotone, lemma_dummies_before_nonneg, lemma_expand_step, lemma_index_of_prefix, level_of, span, spans_fit};
use crate::graph::levels::{is_layering, level_from, node_done};
use crate::graph::positions::{key_less, layer_rank, layer_size, layer_y2, lemma_place_layers_below_keeps, parent_count, parent_sum, place_layer, place_layers_below, placed, same_but_coords, score_den, score_num, x2_of};
use crate::graph::routing::{edges_cross, flag_crossings};
use crate::grid_layout::GridLayout;
use crate::graph::{endpoints_present, has_id, ids_distinct, index_of, lemma_index_of_distinct, lemma_index_of_exists, lemma_same_ids};
use crate::node::NodeView;

verus! {

pub(crate) proof fn lemma_level_from_bounds(
    nodes: Seq<NodeView>,
    edges: Seq<EdgeView>,
    done: Seq<bool>,
    levels: Seq<int>,
    id: i32,
    k: int,
)
    requires
        0 <= k <= edges.len(),
    ensures
        level_from(nodes, edges, done, levels, id, k) >= 0,
        forall|j: int|
            0 <= j < k && #[trigger] edges[j].target == id && node_done(nodes, done, edges[j].source)
                ==> level_from(nodes, edges, done, levels, id, k) >= levels[index_of(
                nodes,
                edges[j].source,
            )] + 1,
        (forall|j: int| 0 <= j < k ==> #[trigger] edges[j].target != id) ==> level_from(
            nodes,
            edges,
            done,
            levels,
            id,
            k,
        ) == 0,
    decreases k,
{
    if k > 0 {
        lemma_level_from_bounds(nodes, edges, done, levels, id, k - 1);
    }
}

/// Every edge whose source the traversal reaches ends at least one level
/// below its source.
pub proof fn law_edges_descend(
    nodes: Seq<NodeView>,
    edges: Seq<EdgeView>,
    levels: Seq<int>,
    done: Seq<bool>,
    rank: Seq<nat>,
    k: int,
)
    requires
        is_layering(nodes, edges, levels, done, rank),
        0 <= k < edges.len(),
        node_done(nodes, done, edges[k].source),
        has_id(nodes, edges[k].target),
    ensures
        levels[index_of(nodes, edges[k].target)] >= levels[index_of(nodes, edges[k].source)] + 1,
{
    lemma_index_of_exists(nodes, edges[k].target);
    let t = index_of(nodes, edges[k].target);
    assert(nodes[t].id == edges[k].target);
    lemma_level_from_bounds(nodes, edges, done, levels, nodes[t].id, edges.len() as int);
    assert(levels[t] == level_from(nodes, edges, done, levels, nodes[t].id, edges.len() as int));
}

proof fn lemma_level_from_attained(
    nodes: Seq<NodeView>,
    edges: Seq<EdgeView>,
    done: Seq<bool>,
    levels: Seq<int>,
    id: i32,
    k: int,
)
    requires
        0 <= k <= edges.len(),
        level_from(nodes, edges, done, levels, id, k) > 0,
    ensures
        exists|j: int|
            0 <= j < k && #[trigger] edges[j].target == id && node_done(nodes, done, edges[j].source) && levels[index_of(
                nodes,
                edges[j].source,
            )] + 1 == level_from(nodes, edges, done, levels, id, k),
    decreases k,
{
    let prev = level_from(nodes, edges, done, levels, id, k - 1);
    if level_from(nodes, edges, done, levels, id, k) == prev {
        lemma_level_from_attained(nodes, edges, done, levels, id, k - 1);
        let j = choose|j: int|
            0 <= j < k - 1 && #[trigger] edges[j].target == id && node_done(nodes, done, edges[j].source)
                && levels[index_of(nodes, edges[j].source)] + 1 == prev;
        assert(0 <= j < k);
    } else {
        assert(edges[k - 1].target == id);
    }
}

/// Levels are as low as the edges allow: a node above level 0 lies exactly
/// one level below the source of some edge into it, a reached node.
pub proof fn law_levels_tight(
    nodes: Seq<NodeView>,
    edges: Seq<EdgeView>,
    levels: Seq<int>,
    done: Seq<bool>,
    rank: Seq<nat>,
    v: int,
)
    requires
        is_layering(nodes, edges, levels, done, rank),
        0 <= v < nodes.len(),
        levels[v] > 0,
    ensures
        exists|k: int|
            0 <= k < edges.len() && #[trigger] edges[k].target == nodes[v].id && node_done(nodes, done, edges[k].source)
                && levels[index_of(nodes, edges[k].source)] + 1 == levels[v],
{
    assert(levels[v] == level_from(nodes, edges, done, levels, nodes[v].id, edges.len() as int));
    lemma_level_from_attained(nodes, edges, done, levels, nodes[v].id, edges.len() as int);
}

/// Levels are never negative, and a node without incoming edges lies on
/// level 0 and is reached.
pub proof fn law_sources_on_level_zero(
    nodes: Seq<NodeView>,
    edges: Seq<EdgeView>,
    levels: Seq<int>,
    done: Seq<bool>,
    rank: Seq<nat>,
    v: int,
)
    requires
        is_layering(nodes, edges, levels, done, rank),
        0 <= v < nodes.len(),
    ensures
        levels[v] >= 0,
        (forall|k: int| 0 <= k < edges.len() ==> #[trigger] edges[k].target != nodes[v].id) ==> levels[v]
            == 0 && done[v],
{
    lemma_level_from_bounds(nodes, edges, done, levels, nodes[v].id, edges.len() as int);
    assert(levels[v] == level_from(nodes, edges, done, levels, nodes[v].id, edges.len() as int));
    if forall|k: int| 0 <= k < edges.len() ==> #[trigger] edges[k].target != nodes[v].id {
        lemma_pending_none(nodes, edges, done, nodes[v].id, edges.len() as int);
        assert(done[v]);
    }
}

proof fn lemma_pending_none(nodes: Seq<NodeView>, edges: Seq<EdgeView>, done: Seq<bool>, id: i32, k: int)
    requires
        0 <= k <= edges.len(),
        forall|j: int| 0 <= j < edges.len() ==> #[trigger] edges[j].target != id,
    ensures
        crate::graph::levels::pending_in(nodes, edges, done, id, k) == 0,
    decreases k,
{
    if k > 0 {
        lemma_pending_none(nodes, edges, done, id, k - 1);
    }
}

/// Flagging crossings a second time changes nothing.
pub proof fn law_crossings_idempotent(edges: Seq<EdgeView>)
    ensures
        flag_crossings(flag_crossings(edges)) == flag_crossings(edges),
{
    let once = flag_crossings(edges);
    assert forall|i: int, j: int| 0 <= i < edges.len() && 0 <= j < edges.len() implies edges_cross(
        #[trigger] once[i],
        #[trigger] once[j],
    ) == edges_cross(edges[i], edges[j]) by {}
    assert(flag_crossings(once) =~= once);
}

/// Crossings come in pairs: an edge that flagging newly marks crosses
/// another edge, which is marked too.
pub proof fn law_crossings_pair_up(edges: Seq<EdgeView>, i: int)
    requires
        0 <= i < edges.len(),
        flag_crossings(edges)[i].crossing,
        !edges[i].crossing,
    ensures
        exists|j: int|
            0 <= j < edges.len() && j != i && edges_cross(edges[i], edges[j]) && edges_cross(edges[j], edges[i])
                && (#[trigger] flag_crossings(edges)[j]).crossing,
{
    let j = choose|j: int| 0 <= j < edges.len() && j != i && edges_cross(edges[i], #[trigger] edges[j]);
    assert(edges_cross(edges[j], edges[i]));
    assert(flag_crossings(edges)[j].crossing);
}


proof fn lemma_parent_count_nonneg(edges: Seq<EdgeView>, id: i32, k: int)
    ensures
        parent_count(edges, id, k) >= 0,
    decreases k,
{
    if k > 0 {
        lemma_parent_count_nonneg(edges, id, k - 1);
    }
}

proof fn lemma_cross_mul_trans(na: int, da: int, nb: int, db: int, nc: int, dc: int)
    requires
        da > 0,
        db > 0,
        dc > 0,
        na * db <= nb * da,
        nb * dc <= nc * db,
    ensures
        na * dc <= nc * da,
        (na * db < nb * da || nb * dc < nc * db) ==> na * dc < nc * da,
{
    assert(na * db * dc <= nb * da * dc) by (nonlinear_arith)
        requires
            na * db <= nb * da,
            dc > 0,
    ;
    assert(nb * dc * da <= nc * db * da) by (nonlinear_arith)
        requires
            nb * dc <= nc * db,
            da > 0,
    ;
    assert(na * dc * db <= nc * da * db) by (nonlinear_arith)
        requires
            na * db * dc <= nb * da * dc,
            nb * dc * da <= nc * db * da,
    ;
    assert(na * dc <= nc * da) by (nonlinear_arith)
        requires
            na * dc * db <= nc * da * db,
            db > 0,
    ;
    if na * db < nb * da || nb * dc < nc * db {
        assert(na * db * dc < nb * da * dc || nb * dc * da < nc * db * da) by (nonlinear_arith)
            requires
                na * db < nb * da || nb * dc < nc * db,
                da > 0,
                dc > 0,
        ;
        assert(na * dc * db < nc * da * db) by (nonlinear_arith)
            requires
                na * db * dc <= nb * da * dc,
                nb * dc * da <= nc * db * da,
                na * db * dc < nb * da * dc || nb * dc * da < nc * db * da,
        ;
        assert(na * dc < nc * da) by (nonlinear_arith)
            requires
                na * dc * db < nc * da * db,
                db > 0,
        ;
    }
}

/// The order of a layer is transitive.
proof fn lemma_key_less_trans(nodes: Seq<NodeView>, edges: Seq<EdgeView>, a: i32, b: i32, c: i32)
    requires
        key_less(nodes, edges, a, b),
        key_less(nodes, edges, b, c),
    ensures
        key_less(nodes, edges, a, c),
{
    lemma_parent_count_nonneg(edges, a, edges.len() as int);
    lemma_parent_count_nonneg(edges, b, edges.len() as int);
    lemma_parent_count_nonneg(edges, c, edges.len() as int);
    lemma_cross_mul_trans(
        score_num(nodes, edges, a),
        score_den(edges, a),
        score_num(nodes, edges, b),
        score_den(edges, b),
        score_num(nodes, edges, c),
        score_den(edges, c),
    );
}

/// Of two different ids, one comes first in the order of a layer.
proof fn lemma_key_less_total(nodes: Seq<NodeView>, edges: Seq<EdgeView>, a: i32, b: i32)
    requires
        a != b,
    ensures
        key_less(nodes, edges, a, b) || key_less(nodes, edges, b, a),
        !key_less(nodes, edges, a, a),
{
}

/// A node earlier in the order of its layer has a smaller rank.
proof fn lemma_rank_below(
    nodes: Seq<NodeView>,
    edges: Seq<EdgeView>,
    level: i32,
    a: int,
    b_id: i32,
    k: int,
)
    requires
        0 <= a < nodes.len(),
        0 <= k <= nodes.len(),
        nodes[a].level == level,
        key_less(nodes, edges, nodes[a].id, b_id),
    ensures
        layer_rank(nodes, edges, level, b_id, k) >= layer_rank(nodes, edges, level, nodes[a].id, k) + if a
            < k {
            1int
        } else {
            0
        },
    decreases k,
{
    if k > 0 {
        lemma_rank_below(nodes, edges, level, a, b_id, k - 1);
        let j = k - 1;
        if nodes[j].level == level && key_less(nodes, edges, nodes[j].id, nodes[a].id) {
            lemma_key_less_trans(nodes, edges, nodes[j].id, nodes[a].id, b_id);
        }
    }
}

/// A node's rank leaves room for the node itself in its layer.
proof fn lemma_rank_in_layer(nodes: Seq<NodeView>, edges: Seq<EdgeView>, level: i32, a: int, k: int)
    requires
        0 <= a < nodes.len(),
        0 <= k <= nodes.len(),
        nodes[a].level == level,
    ensures
        0 <= layer_rank(nodes, edges, level, nodes[a].id, k),
        layer_rank(nodes, edges, level, nodes[a].id, k) + if a < k {
            1int
        } else {
            0
        } <= layer_size(nodes, level, k),
        layer_size(nodes, level, k) <= k,
    decreases k,
{
    if k > 0 {
        lemma_rank_in_layer(nodes, edges, level, a, k - 1);
    }
}

/// Placing other layers leaves the nodes of a layer where they are.
proof fn lemma_other_layers_keep(
    nodes: Seq<NodeView>,
    edges: Seq<EdgeView>,
    grid: GridLayout,
    a: int,
    bound: int,
)
    requires
        0 <= a < nodes.len(),
        nodes[a].level < bound <= i32::MAX + 1,
    ensures
        place_layers_below(nodes, edges, grid, bound)[a] == place_layers_below(
            nodes,
            edges,
            grid,
            nodes[a].level + 1,
        )[a],
    decreases bound - nodes[a].level,
{
    lemma_place_layers_below_keeps(nodes, edges, grid, bound);
    lemma_place_layers_below_keeps(nodes, edges, grid, nodes[a].level + 1);
    if bound > nodes[a].level + 1 {
        lemma_other_layers_keep(nodes, edges, grid, a, bound - 1);
        let prev = place_layers_below(nodes, edges, grid, bound - 1);
        lemma_place_layers_below_keeps(nodes, edges, grid, bound - 1);
        assert(prev[a].level == nodes[a].level);
    }
}

/// The size of a layer depends on the levels alone.
proof fn lemma_layer_size_same(a: Seq<NodeView>, b: Seq<NodeView>, level: i32, k: int)
    requires
        same_but_coords(a, b),
        0 <= k <= a.len(),
    ensures
        layer_size(a, level, k) == layer_size(b, level, k),
    decreases k,
{
    if k > 0 {
        lemma_layer_size_same(a, b, level, k - 1);
    }
}

/// Within a layer, nodes sit in evenly spaced slots centred on x = 0, one
/// node per slot, all at the layer's height: two different nodes on one
/// level get different x coordinates when the node spacing is positive.
pub proof fn law_layer_slots(nodes: Seq<NodeView>, edges: Seq<EdgeView>, grid: GridLayout, a: int, b: int)
    requires
        ids_distinct(nodes),
        nodes.len() <= i32::MAX,
        0 <= a < nodes.len(),
        0 <= b < nodes.len(),
        nodes[a].level == nodes[b].level,
    ensures
        placed(nodes, edges, grid)[a].y2 == layer_y2(grid, nodes[a].level),
        placed(nodes, edges, grid)[a].y2 == 2 * nodes[a].level * grid.layer_spacing + grid.node_height,
        -grid.node_spacing * (layer_size(nodes, nodes[a].level, nodes.len() as int) - 1)
            <= placed(nodes, edges, grid)[a].x2 <= grid.node_spacing * (layer_size(
            nodes,
            nodes[a].level,
            nodes.len() as int,
        ) - 1),
        a != b && grid.node_spacing > 0 ==> placed(nodes, edges, grid)[a].x2 != placed(
            nodes,
            edges,
            grid,
        )[b].x2,
{
    let level = nodes[a].level;
    let n = nodes.len() as int;
    let before = place_layers_below(nodes, edges, grid, level as int);
    lemma_place_layers_below_keeps(nodes, edges, grid, level as int);
    lemma_other_layers_keep(nodes, edges, grid, a, i32::MAX + 1);
    lemma_other_layers_keep(nodes, edges, grid, b, i32::MAX + 1);
    assert(place_layers_below(nodes, edges, grid, level + 1) == place_layer(before, edges, grid, level));
    assert(before[a].level == level && before[b].level == level);
    assert forall|i: int, j: int| 0 <= i < n && 0 <= j < n && i != j implies before[i].id != before[j].id by {
        assert(before[i].id == nodes[i].id);
        assert(before[j].id == nodes[j].id);
    }
    lemma_layer_size_same(before, nodes, level, n);
    let size = layer_size(before, level, n);
    let p = placed(nodes, edges, grid);
    lemma_place_layers_below_keeps(nodes, edges, grid, i32::MAX + 1);
    assert(p[a] == place_layer(before, edges, grid, level)[a]);
    assert(p[b] == place_layer(before, edges, grid, level)[b]);
    let ra = layer_rank(before, edges, level, before[a].id, n);
    let rb = layer_rank(before, edges, level, before[b].id, n);
    lemma_rank_in_layer(before, edges, level, a, n);
    lemma_rank_in_layer(before, edges, level, b, n);
    let ns = grid.node_spacing as int;
    assert(0 <= ns <= 0xffff);
    assert(-ns * (size - 1) <= ns * (2 * ra - size + 1) <= ns * (size - 1)) by (nonlinear_arith)
        requires
            0 <= ra,
            ra + 1 <= size,
            0 <= ns,
    ;
    assert(-0x1_0000_0000_0000 <= ns * (2 * ra - size + 1) <= 0x1_0000_0000_0000) by (nonlinear_arith)
        requires
            0 <= ra,
            ra + 1 <= size,
            size <= 0x8000_0000,
            0 <= ns <= 0xffff,
    ;
    assert(-0x1_0000_0000_0000 <= ns * (2 * rb - size + 1) <= 0x1_0000_0000_0000) by (nonlinear_arith)
        requires
            0 <= rb,
            rb + 1 <= size,
            size <= 0x8000_0000,
            0 <= ns <= 0xffff,
    ;
    let ls = grid.layer_spacing as int;
    assert(layer_y2(grid, level) == 2 * level * ls + grid.node_height);
    assert(-0x2_0000_0000_0000 <= 2 * level * ls <= 0x2_0000_0000_0000) by (nonlinear_arith)
        requires
            i32::MIN <= level <= i32::MAX,
            0 <= ls <= 0xffff,
    ;
    if a != b && ns > 0 {
        lemma_key_less_total(before, edges, before[a].id, before[b].id);
        if key_less(before, edges, before[a].id, before[b].id) {
            lemma_rank_below(before, edges, level, a, before[b].id, n);
        } else {
            lemma_rank_below(before, edges, level, b, before[a].id, n);
        }
        assert(ns * (2 * ra - size + 1) != ns * (2 * rb - size + 1)) by (nonlinear_arith)
            requires
                ns > 0,
                ra != rb,
        ;
    }
}


/// The dummy nodes of the first `k` edges stay at the front of those of the first `m`.
proof fn lemma_added_prefix(nodes: Seq<NodeView>, edges: Seq<EdgeView>, next_id: int, k: int, m: int)
    requires
        0 <= k <= m <= edges.len(),
    ensures
        forall|i: int|
            0 <= i < dummies_before(nodes, edges, k) ==> #[trigger] added_nodes(nodes, edges, next_id, m)[i]
                == added_nodes(nodes, edges, next_id, k)[i],
    decreases m - k,
{
    if k < m {
        lemma_added_prefix(nodes, edges, next_id, k, m - 1);
        lemma_expand_step(nodes, edges, next_id, m - 1);
        lemma_added_nodes_len(nodes, edges, next_id, m - 1);
        lemma_dummies_before_monotone(nodes, edges, k, m - 1);
    }
}

/// The level that `level_of` reads for a node of a sequence with distinct ids.
proof fn lemma_level_of_at(nodes: Seq<NodeView>, i: int)
    requires
        ids_distinct(nodes),
        0 <= i < nodes.len(),
    ensures
        level_of(nodes, nodes[i].id) == nodes[i].level,
{
    lemma_index_of_distinct(nodes, i);
}

/// Breaking long edges leaves no edge that descends more than one level:
/// every edge of the result descends exactly one level, or is an edge of
/// the input that already descended at most one level (or climbed), with
/// the same span.
pub proof fn law_expanded_unit_steps(nodes: Seq<NodeView>, edges: Seq<EdgeView>, next_id: int, j: int)
    requires
        ids_distinct(nodes),
        forall|i: int| 0 <= i < nodes.len() ==> #[trigger] nodes[i].id < next_id,
        0 <= next_id,
        next_id + dummies_before(nodes, edges, edges.len() as int) <= i32::MAX + 1,
        endpoints_present(nodes, edges),
        spans_fit(nodes, edges),
        0 <= j < expanded_edges(nodes, edges, next_id, edges.len() as int).len(),
    ensures
        ({
            let big = nodes + added_nodes(nodes, edges, next_id, edges.len() as int);
            let e = expanded_edges(nodes, edges, next_id, edges.len() as int)[j];
            &&& span(big, e) <= 1
            &&& span(big, e) == 1 || (edges.contains(e) && span(big, e) == span(nodes, e))
        }),
{
    let m = edges.len() as int;
    let added = added_nodes(nodes, edges, next_id, m);
    let big = nodes + added;
    let n = nodes.len() as int;
    lemma_added_nodes_len(nodes, edges, next_id, m);
    lemma_added_ids(nodes, edges, next_id, m);
    assert(ids_distinct(big)) by {
        assert forall|p: int, q: int| 0 <= p < big.len() && 0 <= q < big.len() && p != q implies big[p].id
            != big[q].id by {
            if p >= n {
                assert(big[p] == added[p - n]);
            }
            if q >= n {
                assert(big[q] == added[q - n]);
            }
        }
    }
    lemma_expanded_unit_steps_upto(nodes, edges, next_id, m, big);
}

proof fn lemma_expanded_unit_steps_upto(
    nodes: Seq<NodeView>,
    edges: Seq<EdgeView>,
    next_id: int,
    k: int,
    big: Seq<NodeView>,
)
    requires
        ids_distinct(nodes),
        0 <= next_id,
        next_id + dummies_before(nodes, edges, edges.len() as int) <= i32::MAX + 1,
        endpoints_present(nodes, edges),
        spans_fit(nodes, edges),
        0 <= k <= edges.len(),
        big == nodes + added_nodes(nodes, edges, next_id, edges.len() as int),
        ids_distinct(big),
    ensures
        forall|j: int|
            0 <= j < expanded_edges(nodes, edges, next_id, k).len() ==> {
                let e = #[trigger] expanded_edges(nodes, edges, next_id, k)[j];
                &&& span(big, e) <= 1
                &&& span(big, e) == 1 || (edges.contains(e) && span(big, e) == span(nodes, e))
            },
    decreases k,
{
    if k > 0 {
        let m = edges.len() as int;
        let n = nodes.len() as int;
        lemma_expanded_unit_steps_upto(nodes, edges, next_id, k - 1, big);
        lemma_expand_step(nodes, edges, next_id, k - 1);
        let prev = expanded_edges(nodes, edges, next_id, k - 1);
        let e = edges[k - 1];
        let base = dummies_before(nodes, edges, k - 1);
        let first = next_id + base;
        let chain = expanded_edge(nodes, e, first);
        let all = added_nodes(nodes, edges, next_id, m);
        lemma_added_nodes_len(nodes, edges, next_id, m);
        lemma_added_nodes_len(nodes, edges, next_id, k);
        lemma_added_prefix(nodes, edges, next_id, k, m);
        lemma_dummies_before_monotone(nodes, edges, k, m);
        lemma_dummies_before_nonneg(nodes, edges, k - 1);
        assert(has_id(nodes, e.source) && has_id(nodes, e.target));
        lemma_index_of_prefix(nodes, all, e.source);
        lemma_index_of_prefix(nodes, all, e.target);
        let ls = level_of(nodes, e.source);
        let lt = level_of(nodes, e.target);
        assert(level_of(big, e.source) == ls);
        assert(level_of(big, e.target) == lt);
        assert(i32::MIN <= span(nodes, edges[k - 1]) <= i32::MAX);
        let cur = expanded_edges(nodes, edges, next_id, k);
        assert forall|j: int| 0 <= j < cur.len() implies {
            let x = #[trigger] cur[j];
            &&& span(big, x) <= 1
            &&& span(big, x) == 1 || (edges.contains(x) && span(big, x) == span(nodes, x))
        } by {
            if j < prev.len() {
                assert(cur[j] == prev[j]);
            } else {
                let i = j - prev.len();
                let x = cur[j];
                assert(x == chain[i]);
                let d = span(nodes, e);
                if d <= 1 {
                    assert(x == e);
                    assert(edges[k - 1] == x);
                    assert(edges.contains(x));
                } else {
                    let dummies = dummy_nodes(nodes, e, first);
                    assert(added_nodes(nodes, edges, next_id, k) == added_nodes(nodes, edges, next_id, k - 1)
                        + dummies);
                    lemma_added_nodes_len(nodes, edges, next_id, k - 1);
                    // the level of the dummy node in slot `q` of this chain
                    assert forall|q: int| 0 <= q < d - 1 implies level_of(big, #[trigger] dummies[q].id)
                        == ls + q + 1 by {
                        let pos = n + base + q;
                        assert(all[base + q] == added_nodes(nodes, edges, next_id, k)[base + q]);
                        assert(added_nodes(nodes, edges, next_id, k)[base + q] == dummies[q]);
                        assert(big[pos] == dummies[q]);
                        lemma_level_of_at(big, pos);
                    }
                    if i > 0 {
                        assert(x.source == dummies[i - 1].id);
                    } else {
                        assert(x.source == e.source);
                    }
                    if i < d - 1 {
                        assert(x.target == dummies[i].id);
                    } else {
                        assert(x.target == e.target);
                    }
                }
            }
        }
    }
}


/// Every edge that ends at a node starts at a node on a strictly lower
/// level.
pub open spec fn edges_go_down(nodes: Seq<NodeView>, edges: Seq<EdgeView>) -> bool {
    forall|k: int|
        0 <= k < edges.len() && has_id(nodes, #[trigger] edges[k].target) ==> has_id(nodes, edges[k].source)
            && level_of(nodes, edges[k].source) < level_of(nodes, edges[k].target)
}

proof fn lemma_same_but_coords_ids(a: Seq<NodeView>, b: Seq<NodeView>, id: i32)
    requires
        same_but_coords(a, b),
    ensures
        has_id(a, id) == has_id(b, id),
        has_id(a, id) ==> index_of(a, id) == index_of(b, id),
{
    assert forall|i: int| 0 <= i < a.len() implies #[trigger] a[i].id == b[i].id by {
        assert(a[i].id == b[i].id);
    }
    lemma_same_ids(a, b, id);
}

proof fn lemma_parent_sum_agree(
    pa: Seq<NodeView>,
    pb: Seq<NodeView>,
    edges: Seq<EdgeView>,
    id: i32,
    k: int,
)
    requires
        0 <= k <= edges.len(),
        forall|j: int|
            0 <= j < k && #[trigger] edges[j].target == id ==> x2_of(pa, edges[j].source) == x2_of(
                pb,
                edges[j].source,
            ),
    ensures
        parent_sum(pa, edges, id, k) == parent_sum(pb, edges, id, k),
    decreases k,
{
    if k > 0 {
        lemma_parent_sum_agree(pa, pb, edges, id, k - 1);
    }
}

/// While the layers below `level` are placed alike, a node on `level`
/// scores alike: its parents all lie below it.
proof fn lemma_scores_agree(
    a: Seq<NodeView>,
    pa: Seq<NodeView>,
    pb: Seq<NodeView>,
    edges: Seq<EdgeView>,
    level: int,
    t: i32,
)
    requires
        same_but_coords(pa, a),
        same_but_coords(pb, a),
        ids_distinct(a),
        edges_go_down(a, edges),
        forall|i: int| 0 <= i < a.len() && a[i].level < level ==> #[trigger] pa[i] == pb[i],
        has_id(a, t),
        level_of(a, t) == level,
    ensures
        score_num(pa, edges, t) == score_num(pb, edges, t),
{
    let m = edges.len() as int;
    assert forall|j: int| 0 <= j < m && #[trigger] edges[j].target == t implies x2_of(pa, edges[j].source) == x2_of(
        pb,
        edges[j].source,
    ) by {
        let src = edges[j].source;
        assert(has_id(a, src) && level_of(a, src) < level_of(a, t));
        lemma_same_but_coords_ids(pa, a, src);
        lemma_same_but_coords_ids(pb, a, src);
        lemma_index_of_exists(a, src);
        let x = index_of(a, src);
        assert(pa[x] == pb[x]);
    }
    lemma_parent_sum_agree(pa, pb, edges, t, m);
}

proof fn lemma_rank_agree(
    pa: Seq<NodeView>,
    pb: Seq<NodeView>,
    edges: Seq<EdgeView>,
    level: i32,
    id: i32,
    n: int,
)
    requires
        same_but_coords(pa, pb),
        0 <= n <= pa.len(),
        score_num(pa, edges, id) == score_num(pb, edges, id),
        forall|i: int|
            0 <= i < pa.len() && pa[i].level == level ==> score_num(pa, edges, #[trigger] pa[i].id) == score_num(
                pb,
                edges,
                pa[i].id,
            ),
    ensures
        layer_rank(pa, edges, level, id, n) == layer_rank(pb, edges, level, id, n),
    decreases n,
{
    if n > 0 {
        lemma_rank_agree(pa, pb, edges, level, id, n - 1);
        assert(pa[n - 1].id == pb[n - 1].id && pa[n - 1].level == pb[n - 1].level);
    }
}

proof fn lemma_same_but_coords_trans(a: Seq<NodeView>, b: Seq<NodeView>, c: Seq<NodeView>)
    requires
        same_but_coords(a, b),
        same_but_coords(b, c),
    ensures
        same_but_coords(a, c),
        same_but_coords(c, a),
{
    assert forall|i: int| 0 <= i < a.len() implies a[i].id == c[i].id && a[i].level == c[i].level && a[i].label
        == c[i].label && a[i].is_dummy == c[i].is_dummy by {
        assert(a[i].id == b[i].id);
        assert(b[i].id == c[i].id);
    }
    assert forall|i: int| 0 <= i < c.len() implies c[i].id == a[i].id && c[i].level == a[i].level && c[i].label
        == a[i].label && c[i].is_dummy == a[i].is_dummy by {
        assert(a[i].id == b[i].id);
        assert(b[i].id == c[i].id);
    }
}

/// The layers below `bound` are placed alike on node sequences that differ
/// only in their coordinates.
proof fn lemma_placed_agree(
    a: Seq<NodeView>,
    b: Seq<NodeView>,
    edges: Seq<EdgeView>,
    grid: GridLayout,
    bound: int,
)
    requires
        same_but_coords(b, a),
        ids_distinct(a),
        edges_go_down(a, edges),
        i32::MIN <= bound <= i32::MAX + 1,
    ensures
        forall|i: int|
            0 <= i < a.len() && a[i].level < bound ==> #[trigger] place_layers_below(a, edges, grid, bound)[i]
                == place_layers_below(b, edges, grid, bound)[i],
    decreases bound - i32::MIN,
{
    if bound > i32::MIN {
        let lv = bound - 1;
        lemma_placed_agree(a, b, edges, grid, lv);
        let pa = place_layers_below(a, edges, grid, lv);
        let pb = place_layers_below(b, edges, grid, lv);
        lemma_place_layers_below_keeps(a, edges, grid, lv);
        lemma_place_layers_below_keeps(b, edges, grid, lv);
        lemma_same_but_coords_trans(pb, b, a);
        lemma_same_but_coords_trans(pa, a, pb);
        let n = a.len() as int;
        let l = lv as i32;
        assert forall|i: int| 0 <= i < n && a[i].level < lv implies #[trigger] pa[i] == pb[i] by {}
        assert forall|i: int| 0 <= i < pa.len() && pa[i].level == l implies score_num(pa, edges, #[trigger] pa[i].id)
            == score_num(pb, edges, pa[i].id) by {
            assert(pa[i].id == a[i].id);
            lemma_index_of_distinct(a, i);
            assert(has_id(a, a[i].id));
            lemma_scores_agree(a, pa, pb, edges, lv, a[i].id);
        }
        lemma_layer_size_same(pa, pb, l, n);
        let na = place_layer(pa, edges, grid, l);
        let nb = place_layer(pb, edges, grid, l);
        assert(place_layers_below(a, edges, grid, bound) == na);
        assert(place_layers_below(b, edges, grid, bound) == nb);
        assert forall|i: int| 0 <= i < n && a[i].level < bound implies #[trigger] na[i] == nb[i] by {
            if pa[i].level == l {
                lemma_rank_agree(pa, pb, edges, l, pa[i].id, n);
            }
        }
    }
}

/// Where every edge goes down, placement depends on the ids, levels and
/// edges alone, not on the coordinates the nodes held before.
pub proof fn law_placement_ignores_old_coords(
    a: Seq<NodeView>,
    b: Seq<NodeView>,
    edges: Seq<EdgeView>,
    grid: GridLayout,
)
    requires
        same_but_coords(b, a),
        ids_distinct(a),
        edges_go_down(a, edges),
    ensures
        placed(a, edges, grid) == placed(b, edges, grid),
{
    lemma_placed_agree(a, b, edges, grid, i32::MAX + 1);
    lemma_place_layers_below_keeps(a, edges, grid, i32::MAX + 1);
    lemma_place_layers_below_keeps(b, edges, grid, i32::MAX + 1);
    assert(placed(a, edges, grid) =~= placed(b, edges, grid));
}

/// Where every edge goes down, placing the nodes a second time changes
/// nothing.
pub proof fn law_placement_idempotent(nodes: Seq<NodeView>, edges: Seq<EdgeView>, grid: GridLayout)
    requires
        ids_distinct(nodes),
        edges_go_down(nodes, edges),
    ensures
        placed(placed(nodes, edges, grid), edges, grid) == placed(nodes, edges, grid),
{
    lemma_place_layers_below_keeps(nodes, edges, grid, i32::MAX + 1);
    law_placement_ignores_old_coords(nodes, placed(nodes, edges, grid), edges, grid);
}

/// Breaking long edges keeps, on every edge it produces, the original
/// source of the input edge that it replaces: each produced edge carries the
/// original source of some input edge, and the edges replacing input edge
/// `k` all carry that of `k`.
pub proof fn law_expanded_original_sources(nodes: Seq<NodeView>, edges: Seq<EdgeView>, next_id: int, k: int)
    requires
        0 <= k <= edges.len(),
    ensures
        forall|j: int|
            0 <= j < expanded_edges(nodes, edges, next_id, k).len() ==> exists|i: int|
                0 <= i < k && #[trigger] edges[i].original_source == (#[trigger] expanded_edges(
                    nodes,
                    edges,
                    next_id,
                    k,
                )[j]).original_source,
        k > 0 ==> forall|j: int|
            expanded_edges(nodes, edges, next_id, k - 1).len() <= j < expanded_edges(nodes, edges, next_id, k).len()
                ==> (#[trigger] expanded_edges(nodes, edges, next_id, k)[j]).original_source
                == edges[k - 1].original_source,
    decreases k,
{
    if k > 0 {
        law_expanded_original_sources(nodes, edges, next_id, k - 1);
        lemma_expand_step(nodes, edges, next_id, k - 1);
        let prev = expanded_edges(nodes, edges, next_id, k - 1);
        let cur = expanded_edges(nodes, edges, next_id, k);
        assert forall|j: int| prev.len() <= j < cur.len() implies (#[trigger] cur[j]).original_source
            == edges[k - 1].original_source by {}
        assert forall|j: int| 0 <= j < cur.len() implies exists|i: int|
            0 <= i < k && #[trigger] edges[i].original_source == (#[trigger] cur[j]).original_source by {
            if j < prev.len() {
                assert(cur[j] == prev[j]);
                let i = choose|i: int| 0 <= i < k - 1 && #[trigger] edges[i].original_source == (
                #[trigger] prev[j]).original_source;
                assert(0 <= i < k);
            } else {
                assert(edges[k - 1].original_source == cur[j].original_source);
            }
        }
    }
}

/// When no edge descends more than one level, breaking long edges adds
/// nothing and keeps the edges.
pub(crate) proof fn lemma_all_short(nodes: Seq<NodeView>, edges: Seq<EdgeView>, next_id: int, k: int)
    requires
        0 <= k <= edges.len(),
        forall|j: int| 0 <= j < edges.len() ==> span(nodes, #[trigger] edges[j]) <= 1,
    ensures
        dummies_before(nodes, edges, k) == 0,
        added_nodes(nodes, edges, next_id, k) == Seq::<NodeView>::empty(),
        expanded_edges(nodes, edges, next_id, k) == edges.take(k),
    decreases k,
{
    if k > 0 {
        lemma_all_short(nodes, edges, next_id, k - 1);
        lemma_expand_step(nodes, edges, next_id, k - 1);
        assert(span(nodes, edges[k - 1]) <= 1);
        assert(dummy_nodes(nodes, edges[k - 1], next_id) =~= Seq::<NodeView>::empty());
        assert(added_nodes(nodes, edges, next_id, k) =~= Seq::<NodeView>::empty());
        assert(expanded_edges(nodes, edges, next_id, k) =~= edges.take(k - 1).push(edges[k - 1]));
        assert(edges.take(k) =~= edges.take(k - 1).push(edges[k - 1]));
    }
}

/// Breaking long edges a second time changes nothing: no dummy node is
/// added, the edges stay as they are, and so does the id counter.
pub proof fn law_expand_idempotent(nodes: Seq<NodeView>, edges: Seq<EdgeView>, next_id: int)
    requires
        ids_distinct(nodes),
        forall|i: int| 0 <= i < nodes.len() ==> #[trigger] nodes[i].id < next_id,
        0 <= next_id,
        next_id + dummies_before(nodes, edges, edges.len() as int) <= i32::MAX + 1,
        endpoints_present(nodes, edges),
        spans_fit(nodes, edges),
    ensures
        ({
            let big = nodes + added_nodes(nodes, edges, next_id, edges.len() as int);
            let unit = expanded_edges(nodes, edges, next_id, edges.len() as int);
            let next = next_id + dummies_before(nodes, edges, edges.len() as int);
            &&& dummies_before(big, unit, unit.len() as int) == 0
            &&& added_nodes(big, unit, next, unit.len() as int) == Seq::<NodeView>::empty()
            &&& expanded_edges(big, unit, next, unit.len() as int) == unit
        }),
{
    let big = nodes + added_nodes(nodes, edges, next_id, edges.len() as int);
    let unit = expanded_edges(nodes, edges, next_id, edges.len() as int);
    let next = next_id + dummies_before(nodes, edges, edges.len() as int);
    assert forall|j: int| 0 <= j < unit.len() implies span(big, #[trigger] unit[j]) <= 1 by {
        law_expanded_unit_steps(nodes, edges, next_id, j);
    }
    lemma_all_short(big, unit, next, unit.len() as int);
    assert(unit.take(unit.len() as int) =~= unit);
}


proof fn lemma_acyclic_reached(
    nodes: Seq<NodeView>,
    edges: Seq<EdgeView>,
    levels: Seq<int>,
    done: Seq<bool>,
    rank: Seq<nat>,
    order: Seq<nat>,
    v: int,
    b: nat,
)
    requires
        is_layering(nodes, edges, levels, done, rank),
        order.len() == nodes.len(),
        forall|k: int|
            0 <= k < edges.len() && has_id(nodes, #[trigger] edges[k].target) ==> has_id(
                nodes,
                edges[k].source,
            ) && order[index_of(nodes, edges[k].source)] < order[index_of(nodes, edges[k].target)],
        0 <= v < nodes.len(),
        index_of(nodes, nodes[v].id) == v,
        order[v] < b,
    ensures
        done[v],
    decreases b,
{
    let m = edges.len() as int;
    assert forall|j: int| 0 <= j < m && #[trigger] edges[j].target == nodes[v].id implies node_done(
        nodes,
        done,
        edges[j].source,
    ) by {
        assert(has_id(nodes, edges[j].target));
        let s = edges[j].source;
        lemma_index_of_exists(nodes, s);
        let u = index_of(nodes, s);
        lemma_index_of_exists(nodes, nodes[u].id);
        lemma_acyclic_reached(nodes, edges, levels, done, rank, order, u, (b - 1) as nat);
    }
    crate::graph::levels::lemma_pending_zero(nodes, edges, done, nodes[v].id, m);
}

/// On a graph without cycles the traversal reaches every node (so that, by
/// `law_edges_descend`, every edge ends at least one level below its source).
pub proof fn law_acyclic_all_reached(
    nodes: Seq<NodeView>,
    edges: Seq<EdgeView>,
    levels: Seq<int>,
    done: Seq<bool>,
    rank: Seq<nat>,
    v: int,
)
    requires
        ids_distinct(nodes),
        is_layering(nodes, edges, levels, done, rank),
        crate::graph::levels::acyclic(nodes, edges),
        0 <= v < nodes.len(),
    ensures
        done[v],
{
    let order = choose|order: Seq<nat>|
        order.len() == nodes.len() && forall|k: int|
            0 <= k < edges.len() && has_id(nodes, #[trigger] edges[k].target) ==> has_id(
                nodes,
                edges[k].source,
            ) && order[index_of(nodes, edges[k].source)] < order[index_of(nodes, edges[k].target)];
    lemma_index_of_distinct(nodes, v);
    lemma_acyclic_reached(nodes, edges, levels, done, rank, order, v, (order[v] + 1) as nat);
}



/// The parents' sum and count over the first `k` edges read only those edges.
proof fn lemma_parent_prefix(nodes: Seq<NodeView>, s: Seq<EdgeView>, t: Seq<EdgeView>, id: i32, k: int)
    requires
        0 <= k <= s.len(),
        k <= t.len(),
        forall|j: int| 0 <= j < k ==> #[trigger] s[j] == t[j],
    ensures
        parent_sum(nodes, s, id, k) == parent_sum(nodes, t, id, k),
        parent_count(s, id, k) == parent_count(t, id, k),
    decreases k,
{
    if k > 0 {
        lemma_parent_prefix(nodes, s, t, id, k - 1);
    }
}

/// The parents of a node over two edge lists put together are the parents
/// over each list: their x coordinates add up and so do their numbers, so
/// every edge into the node counts once, wherever it stands.
pub proof fn law_parents_concat(nodes: Seq<NodeView>, a: Seq<EdgeView>, b: Seq<EdgeView>, id: i32)
    ensures
        parent_sum(nodes, a + b, id, (a.len() + b.len()) as int) == parent_sum(nodes, a, id, a.len() as int)
            + parent_sum(nodes, b, id, b.len() as int),
        parent_count(a + b, id, (a.len() + b.len()) as int) == parent_count(a, id, a.len() as int) + parent_count(
            b,
            id,
            b.len() as int,
        ),
    decreases b.len(),
{
    if b.len() == 0 {
        assert(a + b =~= a);
    } else {
        let c = b.drop_last();
        law_parents_concat(nodes, a, c, id);
        lemma_parent_prefix(nodes, a + b, a + c, id, (a.len() + c.len()) as int);
        lemma_parent_prefix(nodes, b, c, id, c.len() as int);
        assert((a + b)[a.len() + b.len() - 1] == b[b.len() - 1]);
    }
}

/// One edge into the node contributes its source's x coordinate and counts
/// once; an edge into another node contributes nothing.
pub proof fn law_parent_single(nodes: Seq<NodeView>, e: EdgeView, id: i32)
    ensures
        parent_sum(nodes, seq![e], id, 1) == if e.target == id {
            nodes[index_of(nodes, e.source)].x2 as int
        } else {
            0
        },
        parent_count(seq![e], id, 1) == if e.target == id {
            1int
        } else {
            0
        },
{
    assert(parent_sum(nodes, seq![e], id, 0) == 0);
    assert(parent_count(seq![e], id, 0) == 0);
    assert(seq![e][0] == e);
}

/// A node with parents scores the mean of its parents' x coordinates: the
/// score's fraction, times the number of parents, is the sum of their x
/// coordinates. A node without parents scores its id (doubled, as all
/// coordinates are).
pub proof fn law_score_is_mean(nodes: Seq<NodeView>, edges: Seq<EdgeView>, id: i32)
    ensures
        score_den(edges, id) > 0,
        parent_count(edges, id, edges.len() as int) > 0 ==> score_num(nodes, edges, id) * parent_count(
            edges,
            id,
            edges.len() as int,
        ) == parent_sum(nodes, edges, id, edges.len() as int) * score_den(edges, id),
        parent_count(edges, id, edges.len() as int) == 0 ==> score_num(nodes, edges, id) == 2 * id * score_den(
            edges,
            id,
        ),
{
    lemma_parent_count_nonneg(edges, id, edges.len() as int);
    let c = parent_count(edges, id, edges.len() as int);
    let s = parent_sum(nodes, edges, id, edges.len() as int);
    if c > 0 {
        assert(s * c == s * c);
    }
}

/// Within a layer, a node whose parents' mean x coordinate is smaller
/// stands to the left of one whose mean is larger; equal means go by id.
/// (Every edge goes down, so the parents are placed before the layer.)
pub proof fn law_layer_order_by_mean(nodes: Seq<NodeView>, edges: Seq<EdgeView>, grid: GridLayout, a: int, b: int)
    requires
        ids_distinct(nodes),
        nodes.len() <= i32::MAX,
        edges_go_down(nodes, edges),
        grid.node_spacing > 0,
        0 <= a < nodes.len(),
        0 <= b < nodes.len(),
        nodes[a].level == nodes[b].level,
        parent_count(edges, nodes[a].id, edges.len() as int) > 0,
        parent_count(edges, nodes[b].id, edges.len() as int) > 0,
    ensures
        ({
            let p = placed(nodes, edges, grid);
            let m = edges.len() as int;
            let sa = parent_sum(p, edges, nodes[a].id, m);
            let sb = parent_sum(p, edges, nodes[b].id, m);
            let ca = parent_count(edges, nodes[a].id, m);
            let cb = parent_count(edges, nodes[b].id, m);
            (sa * cb < sb * ca || (sa * cb == sb * ca && nodes[a].id < nodes[b].id)) ==> p[a].x2 < p[b].x2
        }),
{
    let level = nodes[a].level;
    let n = nodes.len() as int;
    let m = edges.len() as int;
    let before = place_layers_below(nodes, edges, grid, level as int);
    let p = placed(nodes, edges, grid);
    lemma_place_layers_below_keeps(nodes, edges, grid, level as int);
    lemma_place_layers_below_keeps(nodes, edges, grid, i32::MAX + 1);
    lemma_other_layers_keep(nodes, edges, grid, a, i32::MAX + 1);
    lemma_other_layers_keep(nodes, edges, grid, b, i32::MAX + 1);
    assert(place_layers_below(nodes, edges, grid, level + 1) == place_layer(before, edges, grid, level));
    assert(p[a] == place_layer(before, edges, grid, level)[a]);
    assert(p[b] == place_layer(before, edges, grid, level)[b]);
    // the parents lie below the layer, where `before` and `p` agree
    assert forall|i: int| 0 <= i < n && nodes[i].level < level implies #[trigger] before[i] == p[i] by {
        lemma_other_layers_keep(nodes, edges, grid, i, level as int);
        lemma_other_layers_keep(nodes, edges, grid, i, i32::MAX + 1);
    }
    lemma_index_of_distinct(nodes, a);
    lemma_index_of_distinct(nodes, b);
    assert(has_id(nodes, nodes[a].id) && has_id(nodes, nodes[b].id));
    lemma_scores_agree(nodes, before, p, edges, level as int, nodes[a].id);
    lemma_scores_agree(nodes, before, p, edges, level as int, nodes[b].id);
    lemma_parent_sum_agree_all(before, p, edges, nodes, level as int, nodes[a].id);
    lemma_parent_sum_agree_all(before, p, edges, nodes, level as int, nodes[b].id);
    let sa = parent_sum(p, edges, nodes[a].id, m);
    let sb = parent_sum(p, edges, nodes[b].id, m);
    let ca = parent_count(edges, nodes[a].id, m);
    let cb = parent_count(edges, nodes[b].id, m);
    if sa * cb < sb * ca || (sa * cb == sb * ca && nodes[a].id < nodes[b].id) {
        assert(before[a].id == nodes[a].id && before[b].id == nodes[b].id);
        assert(before[a].level == level);
        assert(key_less(before, edges, before[a].id, before[b].id));
        lemma_rank_below(before, edges, level, a, before[b].id, n);
        lemma_rank_in_layer(before, edges, level, a, n);
        lemma_rank_in_layer(before, edges, level, b, n);
        lemma_layer_size_same(before, nodes, level, n);
        let size = layer_size(before, level, n);
        let ra = layer_rank(before, edges, level, before[a].id, n);
        let rb = layer_rank(before, edges, level, before[b].id, n);
        let ns = grid.node_spacing as int;
        assert(-0x1_0000_0000_0000 <= ns * (2 * ra - size + 1) <= 0x1_0000_0000_0000) by (nonlinear_arith)
            requires
                0 <= ra,
                ra + 1 <= size,
                size <= 0x8000_0000,
                0 <= ns <= 0xffff,
        ;
        assert(-0x1_0000_0000_0000 <= ns * (2 * rb - size + 1) <= 0x1_0000_0000_0000) by (nonlinear_arith)
            requires
                0 <= rb,
                rb + 1 <= size,
                size <= 0x8000_0000,
                0 <= ns <= 0xffff,
        ;
        assert(ns * (2 * ra - size + 1) < ns * (2 * rb - size + 1)) by (nonlinear_arith)
            requires
                ns > 0,
                ra < rb,
        ;
    }
}

/// The sum over the parents of a node on `level` is the same in two node
/// sequences that agree below `level`.
proof fn lemma_parent_sum_agree_all(
    pa: Seq<NodeView>,
    pb: Seq<NodeView>,
    edges: Seq<EdgeView>,
    a: Seq<NodeView>,
    level: int,
    t: i32,
)
    requires
        same_but_coords(pa, a),
        same_but_coords(pb, a),
        ids_distinct(a),
        edges_go_down(a, edges),
        forall|i: int| 0 <= i < a.len() && a[i].level < level ==> #[trigger] pa[i] == pb[i],
        has_id(a, t),
        level_of(a, t) == level,
    ensures
        parent_sum(pa, edges, t, edges.len() as int) == parent_sum(pb, edges, t, edges.len() as int),
{
    lemma_scores_agree(a, pa, pb, edges, level, t);
    lemma_parent_count_nonneg(edges, t, edges.len() as int);
    let m = edges.len() as int;
    assert forall|j: int| 0 <= j < m && #[trigger] edges[j].target == t implies x2_of(pa, edges[j].source) == x2_of(
        pb,
        edges[j].source,
    ) by {
        let src = edges[j].source;
        assert(has_id(a, src) && level_of(a, src) < level_of(a, t));
        lemma_same_but_coords_ids(pa, a, src);
        lemma_same_but_coords_ids(pb, a, src);
        lemma_index_of_exists(a, src);
        let x = index_of(a, src);
        assert(pa[x] == pb[x]);
    }
    lemma_parent_sum_agree(pa, pb, edges, t, m);
}

} // verus!
