use vstd::prelude::*;

use crate::edge::EdgeView;
use crate::graph::{find_node, has_id, ids_distinct, index_of, lemma_index_of_distinct, lemma_index_of_exists, lemma_same_ids, Graph};
use crate::node::NodeView;

verus! {

/// The node with the id exists and is marked in `done`.
pub open spec fn node_done(nodes: Seq<NodeView>, done: Seq<bool>, id: i32) -> bool {
    has_id(nodes, id) && done[index_of(nodes, id)]
}

/// Number of the first `k` edges into `id` whose source is not marked done.
pub open spec fn pending_in(
    nodes: Seq<NodeView>,
    edges: Seq<EdgeView>,
    done: Seq<bool>,
    id: i32,
    k: int,
) -> int
    decreases k,
{
    if k <= 0 {
        0
    } else {
        pending_in(nodes, edges, done, id, k - 1) + if edges[k - 1].target == id && !node_done(
            nodes,
            done,
            edges[k - 1].source,
        ) {
            1int
        } else {
            0
        }
    }
}

/// The level that the first `k` edges into `id` impose: one more than the
/// level of each source marked done, and at least 0.
pub open spec fn level_from(
    nodes: Seq<NodeView>,
    edges: Seq<EdgeView>,
    done: Seq<bool>,
    levels: Seq<int>,
    id: i32,
    k: int,
) -> int
    decreases k,
{
    if k <= 0 {
        0
    } else {
        let prev = level_from(nodes, edges, done, levels, id, k - 1);
        if edges[k - 1].target == id && node_done(nodes, done, edges[k - 1].source) {
            let cand = levels[index_of(nodes, edges[k - 1].source)] + 1;
            if cand > prev {
                cand
            } else {
                prev
            }
        } else {
            prev
        }
    }
}

/// `levels` is the longest-path layering of the graph, with `done` the
/// nodes that a topological traversal reaches (a node is reached exactly
/// when the sources of all its incoming edges are reached, `rank` being the
/// order in which they are reached), and every node lying one level below
/// the lowest-lying reached node that has an edge into it, or on level 0.
pub open spec fn is_layering(
    nodes: Seq<NodeView>,
    edges: Seq<EdgeView>,
    levels: Seq<int>,
    done: Seq<bool>,
    rank: Seq<nat>,
) -> bool {
    &&& levels.len() == nodes.len()
    &&& done.len() == nodes.len()
    &&& rank.len() == nodes.len()
    &&& forall|v: int|
        0 <= v < nodes.len() ==> #[trigger] done[v] == (pending_in(
            nodes,
            edges,
            done,
            nodes[v].id,
            edges.len() as int,
        ) == 0)
    &&& forall|v: int, k: int|
        0 <= v < nodes.len() && done[v] && 0 <= k < edges.len() && #[trigger] edges[k].target
            == #[trigger] nodes[v].id ==> node_done(nodes, done, edges[k].source) && rank[index_of(
            nodes,
            edges[k].source,
        )] < rank[v]
    &&& forall|v: int|
        0 <= v < nodes.len() ==> #[trigger] levels[v] == level_from(
            nodes,
            edges,
            done,
            levels,
            nodes[v].id,
            edges.len() as int,
        )
}

/// `levels` is a layering of the graph for some traversal.
pub open spec fn has_layering(nodes: Seq<NodeView>, edges: Seq<EdgeView>, levels: Seq<int>) -> bool {
    exists|done: Seq<bool>, rank: Seq<nat>| #[trigger] is_layering(nodes, edges, levels, done, rank)
}

/// `done` is the traversal of some layering with these levels.
pub open spec fn has_traversal(
    nodes: Seq<NodeView>,
    edges: Seq<EdgeView>,
    levels: Seq<int>,
    done: Seq<bool>,
) -> bool {
    exists|rank: Seq<nat>| #[trigger] is_layering(nodes, edges, levels, done, rank)
}

/// Some order of the nodes puts the source of every edge into a node
/// before that node: the graph has no cycle, and no edge into a node starts
/// outside the graph.
pub open spec fn acyclic(nodes: Seq<NodeView>, edges: Seq<EdgeView>) -> bool {
    exists|order: Seq<nat>|
        order.len() == nodes.len() && forall|k: int|
            0 <= k < edges.len() && has_id(nodes, #[trigger] edges[k].target) ==> has_id(
                nodes,
                edges[k].source,
            ) && order[index_of(nodes, edges[k].source)] < order[index_of(nodes, edges[k].target)]
}

/// The nodes reduced to their ids: a layering reads nothing else of them.
pub open spec fn id_skeleton(nodes: Seq<NodeView>) -> Seq<NodeView> {
    nodes.map_values(
        |n: NodeView| NodeView { id: n.id, level: 0, label: Seq::empty(), x2: 0, y2: 0, is_dummy: false },
    )
}

/// The longest-path layering of the graph (see `is_layering`), chosen
/// by the ids of the nodes and the edges alone.
pub open spec fn layered_levels(nodes: Seq<NodeView>, edges: Seq<EdgeView>) -> Seq<int> {
    choose|levels: Seq<int>| #[trigger] has_layering(id_skeleton(nodes), edges, levels)
}

/// The nodes that the topological traversal reaches (see `is_layering`).
pub open spec fn reached(nodes: Seq<NodeView>, edges: Seq<EdgeView>) -> Seq<bool> {
    choose|done: Seq<bool>| #[trigger] has_traversal(id_skeleton(nodes), edges, layered_levels(nodes, edges), done)
}

/// Node sequences with the same ids, in the same order.
pub open spec fn same_ids(a: Seq<NodeView>, b: Seq<NodeView>) -> bool {
    a.len() == b.len() && forall|i: int| 0 <= i < a.len() ==> #[trigger] a[i].id == b[i].id
}

proof fn lemma_pending_same_ids(
    a: Seq<NodeView>,
    b: Seq<NodeView>,
    edges: Seq<EdgeView>,
    done: Seq<bool>,
    id: i32,
    k: int,
)
    requires
        same_ids(a, b),
        0 <= k <= edges.len(),
    ensures
        pending_in(a, edges, done, id, k) == pending_in(b, edges, done, id, k),
    decreases k,
{
    if k > 0 {
        lemma_pending_same_ids(a, b, edges, done, id, k - 1);
        lemma_same_ids(a, b, edges[k - 1].source);
    }
}

proof fn lemma_level_from_same_ids(
    a: Seq<NodeView>,
    b: Seq<NodeView>,
    edges: Seq<EdgeView>,
    done: Seq<bool>,
    levels: Seq<int>,
    id: i32,
    k: int,
)
    requires
        same_ids(a, b),
        0 <= k <= edges.len(),
    ensures
        level_from(a, edges, done, levels, id, k) == level_from(b, edges, done, levels, id, k),
    decreases k,
{
    if k > 0 {
        lemma_level_from_same_ids(a, b, edges, done, levels, id, k - 1);
        lemma_same_ids(a, b, edges[k - 1].source);
    }
}

/// Whether levels form a layering depends on the ids of the nodes alone.
proof fn lemma_layering_same_ids(
    a: Seq<NodeView>,
    b: Seq<NodeView>,
    edges: Seq<EdgeView>,
    levels: Seq<int>,
    done: Seq<bool>,
    rank: Seq<nat>,
)
    requires
        same_ids(a, b),
        is_layering(b, edges, levels, done, rank),
    ensures
        is_layering(a, edges, levels, done, rank),
{
    let m = edges.len() as int;
    assert forall|v: int| 0 <= v < a.len() implies #[trigger] done[v] == (pending_in(a, edges, done, a[v].id, m) == 0) by {
        lemma_pending_same_ids(a, b, edges, done, a[v].id, m);
        assert(done[v] == (pending_in(b, edges, done, b[v].id, m) == 0));
    }
    assert forall|v: int, k: int|
        0 <= v < a.len() && done[v] && 0 <= k < m && #[trigger] edges[k].target == #[trigger] a[v].id implies node_done(
        a,
        done,
        edges[k].source,
    ) && rank[index_of(a, edges[k].source)] < rank[v] by {
        assert(edges[k].target == b[v].id);
        lemma_same_ids(a, b, edges[k].source);
    }
    assert forall|v: int| 0 <= v < a.len() implies #[trigger] levels[v] == level_from(a, edges, done, levels, a[v].id, m) by {
        lemma_level_from_same_ids(a, b, edges, done, levels, a[v].id, m);
        assert(levels[v] == level_from(b, edges, done, levels, b[v].id, m));
    }
}

proof fn lemma_skeleton_same_ids(nodes: Seq<NodeView>)
    ensures
        same_ids(id_skeleton(nodes), nodes),
        same_ids(nodes, id_skeleton(nodes)),
        ids_distinct(nodes) ==> ids_distinct(id_skeleton(nodes)),
{
}

pub(crate) proof fn lemma_pending_zero(nodes: Seq<NodeView>, edges: Seq<EdgeView>, done: Seq<bool>, id: i32, k: int)
    requires
        0 <= k <= edges.len(),
    ensures
        pending_in(nodes, edges, done, id, k) >= 0,
        (pending_in(nodes, edges, done, id, k) == 0) == (forall|j: int|
            0 <= j < k && #[trigger] edges[j].target == id ==> node_done(nodes, done, edges[j].source)),
    decreases k,
{
    if k > 0 {
        lemma_pending_zero(nodes, edges, done, id, k - 1);
    }
}

proof fn lemma_done_sub(
    nodes: Seq<NodeView>,
    edges: Seq<EdgeView>,
    l1: Seq<int>,
    d1: Seq<bool>,
    r1: Seq<nat>,
    l2: Seq<int>,
    d2: Seq<bool>,
    r2: Seq<nat>,
    v: int,
    b: nat,
)
    requires
        ids_distinct(nodes),
        is_layering(nodes, edges, l1, d1, r1),
        is_layering(nodes, edges, l2, d2, r2),
        0 <= v < nodes.len(),
        d1[v],
        r1[v] < b,
    ensures
        d2[v],
    decreases b,
{
    let m = edges.len() as int;
    assert forall|j: int| 0 <= j < m && #[trigger] edges[j].target == nodes[v].id implies node_done(
        nodes,
        d2,
        edges[j].source,
    ) by {
        assert(node_done(nodes, d1, edges[j].source));
        lemma_index_of_exists(nodes, edges[j].source);
        let u = index_of(nodes, edges[j].source);
        lemma_done_sub(nodes, edges, l1, d1, r1, l2, d2, r2, u, (b - 1) as nat);
    }
    lemma_pending_zero(nodes, edges, d2, nodes[v].id, m);
    assert(d2[v]);
}

proof fn lemma_level_frame(
    nodes: Seq<NodeView>,
    edges: Seq<EdgeView>,
    done: Seq<bool>,
    la: Seq<int>,
    lb: Seq<int>,
    id: i32,
    k: int,
)
    requires
        0 <= k <= edges.len(),
        forall|j: int|
            0 <= j < k && #[trigger] edges[j].target == id && node_done(nodes, done, edges[j].source)
                ==> la[index_of(nodes, edges[j].source)] == lb[index_of(nodes, edges[j].source)],
    ensures
        level_from(nodes, edges, done, la, id, k) == level_from(nodes, edges, done, lb, id, k),
    decreases k,
{
    if k > 0 {
        lemma_level_frame(nodes, edges, done, la, lb, id, k - 1);
    }
}

proof fn lemma_levels_eq_done(
    nodes: Seq<NodeView>,
    edges: Seq<EdgeView>,
    l1: Seq<int>,
    d: Seq<bool>,
    r1: Seq<nat>,
    l2: Seq<int>,
    r2: Seq<nat>,
    v: int,
    b: nat,
)
    requires
        ids_distinct(nodes),
        is_layering(nodes, edges, l1, d, r1),
        is_layering(nodes, edges, l2, d, r2),
        0 <= v < nodes.len(),
        d[v],
        r1[v] < b,
    ensures
        l1[v] == l2[v],
    decreases b,
{
    let m = edges.len() as int;
    assert forall|j: int|
        0 <= j < m && #[trigger] edges[j].target == nodes[v].id && node_done(nodes, d, edges[j].source)
            implies l1[index_of(nodes, edges[j].source)] == l2[index_of(nodes, edges[j].source)] by {
        lemma_index_of_exists(nodes, edges[j].source);
        let u = index_of(nodes, edges[j].source);
        lemma_levels_eq_done(nodes, edges, l1, d, r1, l2, r2, u, (b - 1) as nat);
    }
    lemma_level_frame(nodes, edges, d, l1, l2, nodes[v].id, m);
    assert(l1[v] == l1[v]);
    assert(l1[v] == level_from(nodes, edges, d, l1, nodes[v].id, m));
    assert(l2[v] == level_from(nodes, edges, d, l2, nodes[v].id, m));
}

/// A graph with distinct ids has at most one layering.
pub proof fn lemma_layering_unique(
    nodes: Seq<NodeView>,
    edges: Seq<EdgeView>,
    l1: Seq<int>,
    d1: Seq<bool>,
    r1: Seq<nat>,
    l2: Seq<int>,
    d2: Seq<bool>,
    r2: Seq<nat>,
)
    requires
        ids_distinct(nodes),
        is_layering(nodes, edges, l1, d1, r1),
        is_layering(nodes, edges, l2, d2, r2),
    ensures
        l1 == l2,
        d1 == d2,
{
    let n = nodes.len() as int;
    let m = edges.len() as int;
    assert forall|v: int| 0 <= v < n implies d1[v] == d2[v] by {
        if d1[v] {
            lemma_done_sub(nodes, edges, l1, d1, r1, l2, d2, r2, v, (r1[v] + 1) as nat);
        }
        if d2[v] {
            lemma_done_sub(nodes, edges, l2, d2, r2, l1, d1, r1, v, (r2[v] + 1) as nat);
        }
    }
    assert(d1 =~= d2);
    assert forall|v: int| 0 <= v < n implies l1[v] == l2[v] by {
        assert forall|j: int|
            0 <= j < m && #[trigger] edges[j].target == nodes[v].id && node_done(nodes, d1, edges[j].source)
                implies l1[index_of(nodes, edges[j].source)] == l2[index_of(nodes, edges[j].source)] by {
            lemma_index_of_exists(nodes, edges[j].source);
            let u = index_of(nodes, edges[j].source);
            lemma_levels_eq_done(nodes, edges, l1, d1, r1, l2, r2, u, (r1[u] + 1) as nat);
        }
        lemma_level_frame(nodes, edges, d1, l1, l2, nodes[v].id, m);
        assert(l1[v] == level_from(nodes, edges, d1, l1, nodes[v].id, m));
        assert(l2[v] == level_from(nodes, edges, d1, l2, nodes[v].id, m));
    }
    assert(l1 =~= l2);
}

/// Any layering of a graph with distinct ids is the one `layered_levels` names.
pub proof fn lemma_layered_levels(
    nodes: Seq<NodeView>,
    edges: Seq<EdgeView>,
    levels: Seq<int>,
    done: Seq<bool>,
    rank: Seq<nat>,
)
    requires
        ids_distinct(nodes),
        is_layering(nodes, edges, levels, done, rank),
    ensures
        layered_levels(nodes, edges) == levels,
        reached(nodes, edges) == done,
        has_traversal(nodes, edges, levels, done),
{
    let sk = id_skeleton(nodes);
    lemma_skeleton_same_ids(nodes);
    lemma_layering_same_ids(sk, nodes, edges, levels, done, rank);
    assert(has_layering(sk, edges, levels));
    let l2 = layered_levels(nodes, edges);
    assert(has_layering(sk, edges, l2));
    let (d2, r2) = choose|d: Seq<bool>, r: Seq<nat>| #[trigger] is_layering(sk, edges, l2, d, r);
    lemma_layering_unique(sk, edges, levels, done, rank, l2, d2, r2);
    assert(has_traversal(sk, edges, l2, done));
    let d3 = reached(nodes, edges);
    assert(has_traversal(sk, edges, l2, d3));
    let r3 = choose|r: Seq<nat>| #[trigger] is_layering(sk, edges, l2, d3, r);
    lemma_layering_unique(sk, edges, levels, done, rank, l2, d3, r3);
    assert(has_traversal(nodes, edges, levels, done));
}

/// Levels depend on the ids of the nodes and on the edges alone: node
/// sequences with the same ids get the same layering and the same reached
/// nodes, whatever levels, labels or coordinates they held before.
pub proof fn law_levels_ignore_old_levels(a: Seq<NodeView>, b: Seq<NodeView>, edges: Seq<EdgeView>)
    requires
        same_ids(a, b),
    ensures
        layered_levels(a, edges) == layered_levels(b, edges),
        reached(a, edges) == reached(b, edges),
{
    assert(id_skeleton(a) =~= id_skeleton(b));
}

/// Assigning the levels a second time changes nothing.
pub proof fn law_levels_idempotent(nodes: Seq<NodeView>, edges: Seq<EdgeView>)
    ensures
        with_levels(
            with_levels(nodes, layered_levels(nodes, edges)),
            layered_levels(with_levels(nodes, layered_levels(nodes, edges)), edges),
        ) == with_levels(nodes, layered_levels(nodes, edges)),
{
    let once = with_levels(nodes, layered_levels(nodes, edges));
    law_levels_ignore_old_levels(once, nodes, edges);
    assert(with_levels(once, layered_levels(nodes, edges)) =~= once);
}


/// Like `pending_in` over the first `k` edges, reading edge `j` against
/// `d_new` when `j < c` and against `d_old` otherwise.
spec fn pending_split(
    nodes: Seq<NodeView>,
    edges: Seq<EdgeView>,
    d_new: Seq<bool>,
    d_old: Seq<bool>,
    c: int,
    id: i32,
    k: int,
) -> int
    decreases k,
{
    if k <= 0 {
        0
    } else {
        pending_split(nodes, edges, d_new, d_old, c, id, k - 1) + if edges[k - 1].target == id
            && !node_done(nodes, if k - 1 < c { d_new } else { d_old }, edges[k - 1].source) {
            1int
        } else {
            0
        }
    }
}

/// Like `level_from` over the first `k` edges, reading edge `j` against
/// `d_new` when `j < c` and against `d_old` otherwise.
spec fn level_split(
    nodes: Seq<NodeView>,
    edges: Seq<EdgeView>,
    d_new: Seq<bool>,
    d_old: Seq<bool>,
    c: int,
    levels: Seq<int>,
    id: i32,
    k: int,
) -> int
    decreases k,
{
    if k <= 0 {
        0
    } else {
        let prev = level_split(nodes, edges, d_new, d_old, c, levels, id, k - 1);
        if edges[k - 1].target == id && node_done(
            nodes,
            if k - 1 < c { d_new } else { d_old },
            edges[k - 1].source,
        ) {
            let cand = levels[index_of(nodes, edges[k - 1].source)] + 1;
            if cand > prev {
                cand
            } else {
                prev
            }
        } else {
            prev
        }
    }
}

proof fn lemma_split_ends(
    nodes: Seq<NodeView>,
    edges: Seq<EdgeView>,
    d_new: Seq<bool>,
    d_old: Seq<bool>,
    levels: Seq<int>,
    id: i32,
    k: int,
)
    requires
        0 <= k <= edges.len(),
    ensures
        pending_split(nodes, edges, d_new, d_old, 0, id, k) == pending_in(nodes, edges, d_old, id, k),
        pending_split(nodes, edges, d_new, d_old, edges.len() as int, id, k) == pending_in(
            nodes,
            edges,
            d_new,
            id,
            k,
        ),
        level_split(nodes, edges, d_new, d_old, 0, levels, id, k) == level_from(
            nodes,
            edges,
            d_old,
            levels,
            id,
            k,
        ),
        level_split(nodes, edges, d_new, d_old, edges.len() as int, levels, id, k) == level_from(
            nodes,
            edges,
            d_new,
            levels,
            id,
            k,
        ),
    decreases k,
{
    if k > 0 {
        lemma_split_ends(nodes, edges, d_new, d_old, levels, id, k - 1);
    }
}

/// Moving the cut past edge `c` changes only what that edge contributes,
/// when `d_new` marks exactly one more node than `d_old`.
proof fn lemma_split_step(
    nodes: Seq<NodeView>,
    edges: Seq<EdgeView>,
    d_old: Seq<bool>,
    cur: int,
    c: int,
    levels: Seq<int>,
    id: i32,
    k: int,
)
    requires
        ids_distinct(nodes),
        d_old.len() == nodes.len(),
        0 <= cur < nodes.len(),
        !d_old[cur],
        0 <= c < k <= edges.len(),
    ensures
        pending_split(nodes, edges, d_old.update(cur, true), d_old, c + 1, id, k) == pending_split(
            nodes,
            edges,
            d_old.update(cur, true),
            d_old,
            c,
            id,
            k,
        ) - if edges[c].target == id && edges[c].source == nodes[cur].id {
            1int
        } else {
            0
        },
        level_split(nodes, edges, d_old.update(cur, true), d_old, c + 1, levels, id, k) == if edges[c].target
            == id && edges[c].source == nodes[cur].id {
            let old = level_split(nodes, edges, d_old.update(cur, true), d_old, c, levels, id, k);
            if levels[cur] + 1 > old {
                levels[cur] + 1
            } else {
                old
            }
        } else {
            level_split(nodes, edges, d_old.update(cur, true), d_old, c, levels, id, k)
        },
    decreases k,
{
    let d_new = d_old.update(cur, true);
    let s = edges[c].source;
    lemma_index_of_distinct(nodes, cur);
    if has_id(nodes, s) {
        lemma_index_of_exists(nodes, s);
        if index_of(nodes, s) == cur {
            assert(s == nodes[cur].id);
        } else {
            assert(s != nodes[cur].id) by {
                if s == nodes[cur].id {
                    assert(index_of(nodes, s) == cur);
                }
            }
        }
    } else {
        assert(s != nodes[cur].id);
    }
    if k > c + 1 {
        lemma_split_step(nodes, edges, d_old, cur, c, levels, id, k - 1);
    } else {
        lemma_cutoff_irrelevant(nodes, edges, d_new, d_old, c, c + 1, levels, id, c);
    }
}

/// Cut-offs at or beyond `k` all read the first `k` edges against `d_new`.
proof fn lemma_cutoff_irrelevant(
    nodes: Seq<NodeView>,
    edges: Seq<EdgeView>,
    d_new: Seq<bool>,
    d_old: Seq<bool>,
    c1: int,
    c2: int,
    levels: Seq<int>,
    id: i32,
    k: int,
)
    requires
        k <= c1,
        k <= c2,
    ensures
        pending_split(nodes, edges, d_new, d_old, c1, id, k) == pending_split(
            nodes,
            edges,
            d_new,
            d_old,
            c2,
            id,
            k,
        ),
        level_split(nodes, edges, d_new, d_old, c1, levels, id, k) == level_split(
            nodes,
            edges,
            d_new,
            d_old,
            c2,
            levels,
            id,
            k,
        ),
    decreases k,
{
    if k > 0 {
        lemma_cutoff_irrelevant(nodes, edges, d_new, d_old, c1, c2, levels, id, k - 1);
    }
}

/// `level_split` reads the levels only of nodes that `d_new` marks.
proof fn lemma_level_split_frame(
    nodes: Seq<NodeView>,
    edges: Seq<EdgeView>,
    d_new: Seq<bool>,
    d_old: Seq<bool>,
    c: int,
    la: Seq<int>,
    lb: Seq<int>,
    id: i32,
    k: int,
)
    requires
        0 <= k <= edges.len(),
        d_new.len() == nodes.len(),
        d_old.len() == nodes.len(),
        forall|i: int| 0 <= i < nodes.len() && d_old[i] ==> d_new[i],
        forall|i: int| 0 <= i < nodes.len() && d_new[i] ==> la[i] == lb[i],
    ensures
        level_split(nodes, edges, d_new, d_old, c, la, id, k) == level_split(
            nodes,
            edges,
            d_new,
            d_old,
            c,
            lb,
            id,
            k,
        ),
    decreases k,
{
    if k > 0 {
        lemma_level_split_frame(nodes, edges, d_new, d_old, c, la, lb, id, k - 1);
        let s = edges[k - 1].source;
        if has_id(nodes, s) {
            lemma_index_of_exists(nodes, s);
        }
    }
}

/// Number of marked entries among the first `k`.
spec fn count_done(done: Seq<bool>, k: int) -> int
    decreases k,
{
    if k <= 0 {
        0
    } else {
        count_done(done, k - 1) + if done[k - 1] {
            1int
        } else {
            0
        }
    }
}

proof fn lemma_count_done(done: Seq<bool>, cur: int, k: int)
    requires
        0 <= cur < done.len(),
        0 <= k <= done.len(),
        !done[cur],
    ensures
        0 <= count_done(done, k) <= k,
        count_done(done.update(cur, true), k) == count_done(done, k) + if cur < k {
            1int
        } else {
            0
        },
    decreases k,
{
    if k > 0 {
        lemma_count_done(done, cur, k - 1);
    }
}

proof fn lemma_count_done_none(n: int, k: int)
    requires
        0 <= k <= n,
    ensures
        count_done(none_done(n), k) == 0,
    decreases k,
{
    if k > 0 {
        lemma_count_done_none(n, k - 1);
    }
}

proof fn lemma_count_done_bound(done: Seq<bool>, k: int)
    requires
        0 <= k <= done.len(),
    ensures
        0 <= count_done(done, k) <= k,
    decreases k,
{
    if k > 0 {
        lemma_count_done_bound(done, k - 1);
    }
}


/// Every edge ends at a node of the graph.
pub open spec fn targets_present(nodes: Seq<NodeView>, edges: Seq<EdgeView>) -> bool {
    forall|k: int| 0 <= k < edges.len() ==> has_id(nodes, #[trigger] edges[k].target)
}

/// The nodes with their levels replaced by `levels`.
pub open spec fn with_levels(nodes: Seq<NodeView>, levels: Seq<int>) -> Seq<NodeView> {
    Seq::new(nodes.len(), |v: int| NodeView { level: levels[v] as i32, ..nodes[v] })
}

/// The levels as mathematical integers.
spec fn ints(s: Seq<i64>) -> Seq<int> {
    s.map_values(|x: i64| x as int)
}

/// No node is marked.
spec fn none_done(n: int) -> Seq<bool> {
    Seq::new(n as nat, |i: int| false)
}

/// The work list holds, once each, exactly the unmarked nodes whose
/// incoming edges all come from marked nodes.
spec fn queue_ok(q: Seq<usize>, done: Seq<bool>, indeg: Seq<usize>) -> bool {
    &&& forall|i: int|
        0 <= i < q.len() ==> (#[trigger] q[i]) < done.len() && !done[q[i] as int] && indeg[q[i] as int]
            == 0
    &&& forall|i: int, j: int| 0 <= i < j < q.len() ==> q[i] != q[j]
    &&& forall|v: int|
        0 <= v < done.len() && !done[v] && indeg[v] == 0 ==> exists|i: int| 0 <= i < q.len() && q[i] == v
}

/// `indeg` counts, for each node, the incoming edges from unmarked sources.
spec fn degrees_ok(nodes: Seq<NodeView>, edges: Seq<EdgeView>, done: Seq<bool>, indeg: Seq<usize>) -> bool {
    forall|v: int|
        0 <= v < nodes.len() ==> #[trigger] indeg[v] == pending_in(
            nodes,
            edges,
            done,
            nodes[v].id,
            edges.len() as int,
        )
}

/// Marked nodes were reached after the sources of all their incoming edges.
spec fn ranks_ok(
    nodes: Seq<NodeView>,
    edges: Seq<EdgeView>,
    done: Seq<bool>,
    rank: Seq<nat>,
    cnt: int,
) -> bool {
    &&& forall|v: int| 0 <= v < nodes.len() && #[trigger] done[v] ==> rank[v] < cnt
    &&& forall|v: int, k: int|
        0 <= v < nodes.len() && done[v] && 0 <= k < edges.len() && #[trigger] edges[k].target
            == #[trigger] nodes[v].id ==> node_done(nodes, done, edges[k].source) && rank[index_of(
            nodes,
            edges[k].source,
        )] < rank[v]
}

/// `lev` holds, for each node, the level its edges from marked nodes impose.
spec fn levels_ok(nodes: Seq<NodeView>, edges: Seq<EdgeView>, done: Seq<bool>, lev: Seq<i64>, cnt: int) -> bool {
    &&& forall|v: int|
        0 <= v < nodes.len() ==> #[trigger] lev[v] == level_from(
            nodes,
            edges,
            done,
            ints(lev),
            nodes[v].id,
            edges.len() as int,
        )
    &&& forall|v: int| 0 <= v < nodes.len() ==> 0 <= #[trigger] lev[v] <= cnt
}

proof fn lemma_level_from_none(nodes: Seq<NodeView>, edges: Seq<EdgeView>, levels: Seq<int>, id: i32, k: int)
    requires
        0 <= k <= edges.len(),
    ensures
        level_from(nodes, edges, none_done(nodes.len() as int), levels, id, k) == 0,
    decreases k,
{
    if k > 0 {
        lemma_level_from_none(nodes, edges, levels, id, k - 1);
        if has_id(nodes, edges[k - 1].source) {
            lemma_index_of_exists(nodes, edges[k - 1].source);
        }
    }
}

proof fn lemma_pending_split_nonneg(
    nodes: Seq<NodeView>,
    edges: Seq<EdgeView>,
    d_new: Seq<bool>,
    d_old: Seq<bool>,
    c: int,
    id: i32,
    k: int,
)
    ensures
        pending_split(nodes, edges, d_new, d_old, c, id, k) >= 0,
    decreases k,
{
    if k > 0 {
        lemma_pending_split_nonneg(nodes, edges, d_new, d_old, c, id, k - 1);
    }
}

/// With distinct ids, a node's id names exactly that node.
proof fn lemma_id_names(nodes: Seq<NodeView>, v: int, id: i32)
    requires
        ids_distinct(nodes),
        0 <= v < nodes.len(),
        has_id(nodes, id),
    ensures
        (nodes[v].id == id) == (index_of(nodes, id) == v),
{
    lemma_index_of_distinct(nodes, v);
    lemma_index_of_exists(nodes, id);
}

/// Marks `cur` as reached: every edge out of `cur` raises its target's
/// level to at least one below `cur` and stops counting towards the
/// target's in-degree; targets whose in-degree drops to 0 join the queue.
fn settle(
    Ghost(nodes): Ghost<Seq<NodeView>>,
    Ghost(edges): Ghost<Seq<EdgeView>>,
    tgt: &Vec<usize>,
    src: &Vec<usize>,
    cur: usize,
    lev: &mut Vec<i64>,
    indeg: &mut Vec<usize>,
    queue: &mut Vec<usize>,
    Ghost(d_old): Ghost<Seq<bool>>,
    Ghost(rank): Ghost<Seq<nat>>,
    Ghost(cnt): Ghost<int>,
)
    requires
        ids_distinct(nodes),
        tgt@.len() == edges.len(),
        src@.len() == edges.len(),
        forall|k: int|
            0 <= k < edges.len() ==> (#[trigger] tgt@[k]) < nodes.len() && tgt@[k] == index_of(
                nodes,
                edges[k].target,
            ),
        forall|k: int|
            0 <= k < edges.len() ==> (#[trigger] src@[k]) <= nodes.len() && ((src@[k] < nodes.len())
                == has_id(nodes, edges[k].source)) && (src@[k] < nodes.len() ==> src@[k] == index_of(
                nodes,
                edges[k].source,
            )),
        targets_present(nodes, edges),
        cur < nodes.len(),
        d_old.len() == nodes.len(),
        !d_old[cur as int],
        old(indeg)@.len() == nodes.len(),
        old(lev)@.len() == nodes.len(),
        degrees_ok(nodes, edges, d_old, old(indeg)@),
        levels_ok(nodes, edges, d_old, old(lev)@, cnt),
        ranks_ok(nodes, edges, d_old, rank, cnt),
        queue_ok(old(queue)@, d_old.update(cur as int, true), old(indeg)@),
        forall|k: int|
            0 <= k < edges.len() && #[trigger] edges[k].target == nodes[cur as int].id ==> node_done(
                nodes,
                d_old,
                edges[k].source,
            ),
        0 <= cnt < i32::MAX,
    ensures
        final(indeg)@.len() == nodes.len(),
        final(lev)@.len() == nodes.len(),
        degrees_ok(nodes, edges, d_old.update(cur as int, true), final(indeg)@),
        levels_ok(nodes, edges, d_old.update(cur as int, true), final(lev)@, cnt + 1),
        queue_ok(final(queue)@, d_old.update(cur as int, true), final(indeg)@),
{
    let ghost d_new = d_old.update(cur as int, true);
    let ghost n = nodes.len() as int;
    let ghost m = edges.len() as int;
    let ghost lev0 = lev@;
    let cl = lev[cur];
    proof {
        assert(0 <= lev@[cur as int] <= cnt);
        assert forall|v: int| #![trigger indeg@[v]] #![trigger lev@[v]] 0 <= v < n implies indeg@[v] == pending_split(
            nodes,
            edges,
            d_new,
            d_old,
            0,
            nodes[v].id,
            m,
        ) && lev@[v] == level_split(nodes, edges, d_new, d_old, 0, ints(lev@), nodes[v].id, m) by {
            lemma_split_ends(nodes, edges, d_new, d_old, ints(lev@), nodes[v].id, m);
            assert(lev@[v] == level_from(nodes, edges, d_old, ints(lev@), nodes[v].id, m));
        }
    }
    let mut k: usize = 0;
    while k < tgt.len()
        invariant
            ids_distinct(nodes),
            n == nodes.len(),
            m == edges.len(),
            tgt@.len() == m,
            src@.len() == m,
            forall|j: int|
                0 <= j < m ==> (#[trigger] tgt@[j]) < n && tgt@[j] == index_of(nodes, edges[j].target),
            forall|j: int|
                0 <= j < m ==> (#[trigger] src@[j]) <= n && ((src@[j] < n) == has_id(nodes, edges[j].source))
                    && (src@[j] < n ==> src@[j] == index_of(nodes, edges[j].source)),
            targets_present(nodes, edges),
            cur < n,
            d_old.len() == n,
            !d_old[cur as int],
            d_new == d_old.update(cur as int, true),
            ranks_ok(nodes, edges, d_old, rank, cnt),
            forall|j: int|
                0 <= j < m && #[trigger] edges[j].target == nodes[cur as int].id ==> node_done(
                    nodes,
                    d_old,
                    edges[j].source,
                ),
            0 <= cnt < i32::MAX,
            k <= m,
            indeg@.len() == n,
            lev@.len() == n,
            cl == lev@[cur as int],
            0 <= cl <= cnt,
            forall|v: int|
                0 <= v < n ==> #[trigger] indeg@[v] == pending_split(
                    nodes,
                    edges,
                    d_new,
                    d_old,
                    k as int,
                    nodes[v].id,
                    m,
                ),
            forall|v: int|
                0 <= v < n ==> #[trigger] lev@[v] == level_split(
                    nodes,
                    edges,
                    d_new,
                    d_old,
                    k as int,
                    ints(lev@),
                    nodes[v].id,
                    m,
                ),
            forall|v: int| 0 <= v < n ==> 0 <= #[trigger] lev@[v] <= cnt + 1,
            forall|v: int| 0 <= v < n && d_new[v] ==> #[trigger] lev@[v] == lev0[v],
            queue_ok(queue@, d_new, indeg@),
        decreases m - k,
    {
        let ghost lev_k = lev@;
        let ghost indeg_k = indeg@;
        let ghost queue_k = queue@;
        proof {
            lemma_index_of_distinct(nodes, cur as int);
        }
        if src[k] == cur {
            let t = tgt[k];
            proof {
                let e = edges[k as int];
                lemma_id_names(nodes, cur as int, e.source);
                assert(e.source == nodes[cur as int].id);
                assert(has_id(nodes, e.target));
                lemma_id_names(nodes, t as int, e.target);
                assert(e.target == nodes[t as int].id);
                assert(t != cur) by {
                    if t == cur {
                        assert(node_done(nodes, d_old, e.source));
                        assert(index_of(nodes, e.source) == cur);
                    }
                }
                assert(!d_old[t as int]) by {
                    if d_old[t as int] {
                        assert(node_done(nodes, d_old, e.source));
                        assert(index_of(nodes, e.source) == cur);
                    }
                }
                lemma_split_step(nodes, edges, d_old, cur as int, k as int, ints(lev_k), nodes[t as int].id, m);
                lemma_pending_split_nonneg(nodes, edges, d_new, d_old, k + 1, nodes[t as int].id, m);
            }
            let lt = lev[t];
            let nl = if lt > cl + 1 {
                lt
            } else {
                cl + 1
            };
            lev.set(t, nl);
            let dt = indeg[t] - 1;
            indeg.set(t, dt);
            if dt == 0 {
                queue.push(t);
            }
            proof {
                assert forall|v: int| 0 <= v < n && d_new[v] implies lev@[v] == lev_k[v] by {
                    if v == t {
                        assert(!d_new[v]);
                    }
                }
                assert forall|v: int| #![trigger indeg@[v]] #![trigger lev@[v]] 0 <= v < n implies indeg@[v] == pending_split(
                    nodes,
                    edges,
                    d_new,
                    d_old,
                    k + 1,
                    nodes[v].id,
                    m,
                ) && lev@[v] == level_split(nodes, edges, d_new, d_old, k + 1, ints(lev@), nodes[v].id, m)
                    by {
                    lemma_split_step(nodes, edges, d_old, cur as int, k as int, ints(lev_k), nodes[v].id, m);
                    lemma_level_split_frame(nodes, edges, d_new, d_old, k + 1, ints(lev_k), ints(lev@), nodes[v].id, m);
                    if v != t {
                        assert(nodes[v].id != nodes[t as int].id);
                        assert(lev@[v] == lev_k[v]);
                        assert(indeg@[v] == indeg_k[v]);
                    }
                }
                assert(queue_ok(queue@, d_new, indeg@)) by {
                    assert forall|i: int| 0 <= i < queue_k.len() implies queue_k[i] != t by {
                        assert(indeg_k[queue_k[i] as int] == 0);
                    }
                    assert forall|v: int| 0 <= v < n && !d_new[v] && indeg@[v] == 0 implies exists|i: int|
                        0 <= i < queue@.len() && queue@[i] == v by {
                        if v == t {
                            assert(queue@[queue_k.len() as int] == v);
                        } else {
                            assert(indeg_k[v] == 0);
                            let i = choose|i: int| 0 <= i < queue_k.len() && queue_k[i] == v;
                            assert(queue@[i] == v);
                        }
                    }
                }
            }
        } else {
            proof {
                let e = edges[k as int];
                if src@[k as int] < n {
                    lemma_id_names(nodes, cur as int, e.source);
                }
                assert(e.source != nodes[cur as int].id);
                assert forall|v: int| #![trigger indeg@[v]] #![trigger lev@[v]] 0 <= v < n implies indeg@[v] == pending_split(
                    nodes,
                    edges,
                    d_new,
                    d_old,
                    k + 1,
                    nodes[v].id,
                    m,
                ) && lev@[v] == level_split(nodes, edges, d_new, d_old, k + 1, ints(lev@), nodes[v].id, m)
                    by {
                    lemma_split_step(nodes, edges, d_old, cur as int, k as int, ints(lev@), nodes[v].id, m);
                }
            }
        }
        k += 1;
    }
    proof {
        assert forall|v: int| #![trigger indeg@[v]] #![trigger lev@[v]] 0 <= v < n implies indeg@[v] == pending_in(
            nodes,
            edges,
            d_new,
            nodes[v].id,
            m,
        ) && lev@[v] == level_from(nodes, edges, d_new, ints(lev@), nodes[v].id, m) by {
            lemma_split_ends(nodes, edges, d_new, d_old, ints(lev@), nodes[v].id, m);
        }
    }
}

impl Graph {
    /// For each edge, the position of its target node, and the position of
    /// its source node or `nodes.len()` when no node carries the source.
    fn edge_endpoints(&self) -> (res: (Vec<usize>, Vec<usize>))
        requires
            targets_present(self@.nodes, self@.edges),
        ensures
            res.0@.len() == self@.edges.len(),
            res.1@.len() == self@.edges.len(),
            forall|k: int|
                0 <= k < self@.edges.len() ==> (#[trigger] res.0@[k]) < self@.nodes.len() && res.0@[k]
                    == index_of(self@.nodes, self@.edges[k].target),
            forall|k: int|
                0 <= k < self@.edges.len() ==> (#[trigger] res.1@[k]) <= self@.nodes.len() && ((res.1@[k]
                    < self@.nodes.len()) == has_id(self@.nodes, self@.edges[k].source)) && (res.1@[k]
                    < self@.nodes.len() ==> res.1@[k] == index_of(self@.nodes, self@.edges[k].source)),
    {
        let ghost nodes = self@.nodes;
        let ghost edges = self@.edges;
        let n = self.nodes.len();
        let m = self.edges.len();
        let mut tgt: Vec<usize> = Vec::new();
        let mut src: Vec<usize> = Vec::new();
        let mut k: usize = 0;
        while k < m
            invariant
                nodes == self@.nodes,
                edges == self@.edges,
                n == nodes.len(),
                m == edges.len(),
                targets_present(nodes, edges),
                k <= m,
                tgt@.len() == k,
                src@.len() == k,
                forall|j: int|
                    0 <= j < k ==> (#[trigger] tgt@[j]) < n && tgt@[j] == index_of(nodes, edges[j].target),
                forall|j: int|
                    0 <= j < k ==> (#[trigger] src@[j]) <= n && ((src@[j] < n) == has_id(nodes, edges[j].source))
                        && (src@[j] < n ==> src@[j] == index_of(nodes, edges[j].source)),
            decreases m - k,
        {
            assert(self.edges@[k as int]@ == edges[k as int]);
            assert(has_id(nodes, edges[k as int].target));
            match find_node(&self.nodes, self.edges[k].target) {
                Some(t) => {
                    tgt.push(t);
                },
                None => {
                    tgt.push(0);
                },
            }
            match find_node(&self.nodes, self.edges[k].source) {
                Some(s) => {
                    src.push(s);
                },
                None => {
                    src.push(n);
                },
            }
            k += 1;
        }
        (tgt, src)
    }

    /// For each node, the number of edges that end at it.
    fn in_degrees(&self, tgt: &Vec<usize>) -> (indeg: Vec<usize>)
        requires
            ids_distinct(self@.nodes),
            targets_present(self@.nodes, self@.edges),
            tgt@.len() == self@.edges.len(),
            forall|k: int|
                0 <= k < self@.edges.len() ==> (#[trigger] tgt@[k]) < self@.nodes.len() && tgt@[k]
                    == index_of(self@.nodes, self@.edges[k].target),
        ensures
            indeg@.len() == self@.nodes.len(),
            degrees_ok(self@.nodes, self@.edges, none_done(self@.nodes.len() as int), indeg@),
    {
        let ghost nodes = self@.nodes;
        let ghost edges = self@.edges;
        let ghost d0 = none_done(nodes.len() as int);
        let n = self.nodes.len();
        let m = self.edges.len();
        assert(self.edges@.len() == m);
        let mut indeg: Vec<usize> = Vec::new();
        let mut v: usize = 0;
        while v < n
            invariant
                n == nodes.len(),
                v <= n,
                indeg@.len() == v,
                forall|w: int| 0 <= w < v ==> #[trigger] indeg@[w] == 0,
            decreases n - v,
        {
            indeg.push(0);
            v += 1;
        }
        let mut k: usize = 0;
        while k < m
            invariant
                nodes == self@.nodes,
                edges == self@.edges,
                n == nodes.len(),
                m == edges.len(),
                ids_distinct(nodes),
                targets_present(nodes, edges),
                d0 == none_done(nodes.len() as int),
                tgt@.len() == m,
                forall|j: int|
                    0 <= j < m ==> (#[trigger] tgt@[j]) < n && tgt@[j] == index_of(nodes, edges[j].target),
                k <= m,
                indeg@.len() == n,
                forall|w: int|
                    0 <= w < n ==> #[trigger] indeg@[w] == pending_in(nodes, edges, d0, nodes[w].id, k as int)
                        && indeg@[w] <= k,
            decreases m - k,
        {
            let t = tgt[k];
            let ghost before = indeg@;
            indeg.set(t, indeg[t] + 1);
            proof {
                assert(has_id(nodes, edges[k as int].target));
                assert forall|w: int| 0 <= w < n implies #[trigger] indeg@[w] == pending_in(
                    nodes,
                    edges,
                    d0,
                    nodes[w].id,
                    k + 1,
                ) && indeg@[w] <= k + 1 by {
                    lemma_id_names(nodes, w, edges[k as int].target);
                    let s = edges[k as int].source;
                    if has_id(nodes, s) {
                        lemma_index_of_exists(nodes, s);
                    }
                    assert(!node_done(nodes, d0, s));
                    if w != t {
                        assert(indeg@[w] == before[w]);
                    }
                }
            }
            k += 1;
        }
        indeg
    }

    /// The nodes whose in-degree is 0, in order.
    fn sources_of(indeg: &Vec<usize>) -> (queue: Vec<usize>)
        ensures
            queue_ok(queue@, none_done(indeg@.len() as int), indeg@),
    {
        let ghost d0 = none_done(indeg@.len() as int);
        let n = indeg.len();
        let mut queue: Vec<usize> = Vec::new();
        let mut v: usize = 0;
        while v < n
            invariant
                n == indeg@.len(),
                d0 == none_done(n as int),
                v <= n,
                forall|i: int|
                    0 <= i < queue@.len() ==> (#[trigger] queue@[i]) < v && indeg@[queue@[i] as int] == 0,
                forall|i: int, j: int| 0 <= i < j < queue@.len() ==> queue@[i] < queue@[j],
                forall|w: int|
                    0 <= w < v && indeg@[w] == 0 ==> exists|i: int| 0 <= i < queue@.len() && queue@[i] == w,
            decreases n - v,
        {
            if indeg[v] == 0 {
                let ghost before = queue@;
                queue.push(v);
                proof {
                    assert forall|w: int| 0 <= w < v + 1 && indeg@[w] == 0 implies exists|i: int|
                        0 <= i < queue@.len() && queue@[i] == w by {
                        if w < v {
                            let i = choose|i: int| 0 <= i < before.len() && before[i] == w;
                            assert(queue@[i] == w);
                        } else {
                            assert(queue@[before.len() as int] == w);
                        }
                    }
                }
            }
            v += 1;
        }
        queue
    }

    /// Assigns every node its level in the longest-path layering: nodes
    /// are taken in topological order, starting from the nodes without
    /// incoming edges, and each edge pushes its target to at least one level
    /// below its source. Nodes on or below a cycle are only pushed by the
    /// reached nodes with edges into them.
    pub fn compute_node_levels(&mut self)
        requires
            ids_distinct(old(self)@.nodes),
            targets_present(old(self)@.nodes, old(self)@.edges),
            old(self)@.nodes.len() <= i32::MAX,
        ensures
            final(self)@.nodes == with_levels(
                old(self)@.nodes,
                layered_levels(old(self)@.nodes, old(self)@.edges),
            ),
            has_traversal(
                old(self)@.nodes,
                old(self)@.edges,
                layered_levels(old(self)@.nodes, old(self)@.edges),
                reached(old(self)@.nodes, old(self)@.edges),
            ),
            forall|v: int|
                0 <= v < old(self)@.nodes.len() ==> 0 <= #[trigger] layered_levels(
                    old(self)@.nodes,
                    old(self)@.edges,
                )[v] <= old(self)@.nodes.len(),
            final(self)@.edges == old(self)@.edges,
            final(self)@.next_id == old(self)@.next_id,
            old(self)@.ids_are_positions() ==> final(self)@.ids_are_positions(),
    {
        let ghost nodes = self@.nodes;
        let ghost edges = self@.edges;
        let n = self.nodes.len();
        let (tgt, src) = self.edge_endpoints();
        let mut indeg = self.in_degrees(&tgt);
        let mut queue = Graph::sources_of(&indeg);
        let mut lev: Vec<i64> = Vec::new();
        let mut v: usize = 0;
        while v < n
            invariant
                n == nodes.len(),
                v <= n,
                lev@.len() == v,
                forall|w: int| 0 <= w < v ==> #[trigger] lev@[w] == 0,
            decreases n - v,
        {
            lev.push(0);
            v += 1;
        }
        let ghost mut done = none_done(n as int);
        let ghost mut rank = Seq::new(n as nat, |i: int| 0nat);
        let ghost mut cnt: int = 0;
        proof {
            assert forall|w: int| 0 <= w < n implies #[trigger] lev@[w] == level_from(
                nodes,
                edges,
                done,
                ints(lev@),
                nodes[w].id,
                edges.len() as int,
            ) by {
                lemma_level_from_none(nodes, edges, ints(lev@), nodes[w].id, edges.len() as int);
            }
            lemma_count_done_none(n as int, n as int);
        }
        while queue.len() > 0
            invariant
                nodes == self@.nodes,
                edges == self@.edges,
                self@.next_id == old(self)@.next_id,
                nodes == old(self)@.nodes,
                edges == old(self)@.edges,
                n == nodes.len(),
                n <= i32::MAX,
                ids_distinct(nodes),
                targets_present(nodes, edges),
                tgt@.len() == edges.len(),
                src@.len() == edges.len(),
                forall|k: int|
                    0 <= k < edges.len() ==> (#[trigger] tgt@[k]) < n && tgt@[k] == index_of(
                        nodes,
                        edges[k].target,
                    ),
                forall|k: int|
                    0 <= k < edges.len() ==> (#[trigger] src@[k]) <= n && ((src@[k] < n) == has_id(
                        nodes,
                        edges[k].source,
                    )) && (src@[k] < n ==> src@[k] == index_of(nodes, edges[k].source)),
                indeg@.len() == n,
                lev@.len() == n,
                done.len() == n,
                rank.len() == n,
                degrees_ok(nodes, edges, done, indeg@),
                levels_ok(nodes, edges, done, lev@, cnt),
                ranks_ok(nodes, edges, done, rank, cnt),
                queue_ok(queue@, done, indeg@),
                cnt == count_done(done, n as int),
                0 <= cnt <= n,
            decreases n - cnt,
        {
            let ghost q0 = queue@;
            let ghost m = edges.len() as int;
            let popped = queue.pop();
            let cur = match popped {
                Some(c) => c,
                None => 0,
            };
            proof {
                assert(cur == q0[q0.len() - 1]);
                let d_new = done.update(cur as int, true);
                assert(cur < n && !done[cur as int] && indeg@[cur as int] == 0);
                assert(queue@ =~= q0.subrange(0, q0.len() - 1));
                assert(queue_ok(queue@, d_new, indeg@)) by {
                    assert forall|w: int| 0 <= w < n && !d_new[w] && indeg@[w] == 0 implies exists|i: int|
                        0 <= i < queue@.len() && queue@[i] == w by {
                        let i = choose|i: int| 0 <= i < q0.len() && q0[i] == w;
                        assert(i != q0.len() - 1);
                        assert(queue@[i] == w);
                    }
                }
                lemma_pending_zero(nodes, edges, done, nodes[cur as int].id, m);
                lemma_count_done(done, cur as int, n as int);
                lemma_count_done_bound(d_new, n as int);
                assert(cnt < i32::MAX);
            }
            settle(
                Ghost(nodes),
                Ghost(edges),
                &tgt,
                &src,
                cur,
                &mut lev,
                &mut indeg,
                &mut queue,
                Ghost(done),
                Ghost(rank),
                Ghost(cnt),
            );
            proof {
                let d_old = done;
                let r_old = rank;
                let d_new = d_old.update(cur as int, true);
                let r_new = r_old.update(cur as int, cnt as nat);
                assert forall|w: int, k: int|
                    0 <= w < n && d_new[w] && 0 <= k < m && #[trigger] edges[k].target
                        == #[trigger] nodes[w].id implies node_done(nodes, d_new, edges[k].source)
                    && r_new[index_of(nodes, edges[k].source)] < r_new[w] by {
                    let s = edges[k].source;
                    assert(node_done(nodes, d_old, s));
                    lemma_index_of_exists(nodes, s);
                    assert(index_of(nodes, s) != cur);
                }
                done = d_new;
                rank = r_new;
                cnt = cnt + 1;
            }
        }
        proof {
            let m = edges.len() as int;
            let levels = ints(lev@);
            assert forall|w: int| 0 <= w < n implies #[trigger] done[w] == (pending_in(
                nodes,
                edges,
                done,
                nodes[w].id,
                m,
            ) == 0) by {
                lemma_pending_zero(nodes, edges, done, nodes[w].id, m);
                if done[w] {
                    assert forall|j: int| 0 <= j < m && #[trigger] edges[j].target == nodes[w].id implies node_done(
                        nodes,
                        done,
                        edges[j].source,
                    ) by {}
                } else {
                    if indeg@[w] == 0 {
                        let i = choose|i: int| 0 <= i < queue@.len() && queue@[i] == w;
                    }
                }
            }
            assert forall|w: int| 0 <= w < n implies #[trigger] levels[w] == level_from(
                nodes,
                edges,
                done,
                levels,
                nodes[w].id,
                m,
            ) by {
                assert(lev@[w] == level_from(nodes, edges, done, ints(lev@), nodes[w].id, m));
            }
            assert(is_layering(nodes, edges, levels, done, rank));
            lemma_layered_levels(nodes, edges, levels, done, rank);
        }
        let ghost levels = ints(lev@);
        let ghost target = with_levels(nodes, levels);
        let mut v: usize = 0;
        while v < n
            invariant
                n == nodes.len(),
                n <= i32::MAX,
                self.nodes@.len() == n,
                self@.edges == edges,
                self@.next_id == old(self)@.next_id,
                lev@.len() == n,
                levels == ints(lev@),
                target == with_levels(nodes, levels),
                forall|w: int| 0 <= w < n ==> 0 <= #[trigger] lev@[w] <= n,
                v <= n,
                forall|w: int| 0 <= w < v ==> #[trigger] self.nodes@[w]@ == target[w],
                forall|w: int| v <= w < n ==> #[trigger] self.nodes@[w]@ == nodes[w],
            decreases n - v,
        {
            let ghost before = self.nodes@;
            let l = lev[v] as i32;
            assert(levels[v as int] == lev@[v as int] as int);
            assert(target[v as int] == NodeView { level: levels[v as int] as i32, ..nodes[v as int] });
            assert(before[v as int]@ == nodes[v as int]);
            self.nodes[v].level = l;
            proof {
                assert(self.nodes@[v as int]@ == target[v as int]);
                assert forall|w: int| 0 <= w < n && w != v implies #[trigger] self.nodes@[w] == before[w] by {}
            }
            v += 1;
        }
        proof {
            assert(self@.nodes =~= target);
        }
    }
}

} // verus!
