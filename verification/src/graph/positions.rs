use vstd::prelude::*;

use crate::edge::EdgeView;
use crate::graph::{find_node, has_id, ids_distinct, index_of, Graph};
use crate::grid_layout::GridLayout;
use crate::node::{Node, NodeView};

verus! {

/// Doubled x coordinate of the node with the id.
pub open spec fn x2_of(nodes: Seq<NodeView>, id: i32) -> int {
    nodes[index_of(nodes, id)].x2 as int
}

/// Sum of the doubled x coordinates of the sources of the first `k` edges
/// that end at `id` (an edge counted once per occurrence).
pub open spec fn parent_sum(nodes: Seq<NodeView>, edges: Seq<EdgeView>, id: i32, k: int) -> int
    decreases k,
{
    if k <= 0 {
        0
    } else {
        parent_sum(nodes, edges, id, k - 1) + if edges[k - 1].target == id {
            x2_of(nodes, edges[k - 1].source)
        } else {
            0
        }
    }
}

/// Number of the first `k` edges that end at `id`.
pub open spec fn parent_count(edges: Seq<EdgeView>, id: i32, k: int) -> int
    decreases k,
{
    if k <= 0 {
        0
    } else {
        parent_count(edges, id, k - 1) + if edges[k - 1].target == id {
            1int
        } else {
            0
        }
    }
}

/// Numerator of a node's barycenter score, in doubled units: the sum of its
/// parents' doubled x coordinates, or twice its id when it has no parent.
pub open spec fn score_num(nodes: Seq<NodeView>, edges: Seq<EdgeView>, id: i32) -> int {
    if parent_count(edges, id, edges.len() as int) == 0 {
        2 * id
    } else {
        parent_sum(nodes, edges, id, edges.len() as int)
    }
}

/// Denominator of a node's barycenter score: its number of parents, or 1.
pub open spec fn score_den(edges: Seq<EdgeView>, id: i32) -> int {
    if parent_count(edges, id, edges.len() as int) == 0 {
        1
    } else {
        parent_count(edges, id, edges.len() as int)
    }
}

/// The order of a layer: by barycenter score, then by id.
pub open spec fn key_less(nodes: Seq<NodeView>, edges: Seq<EdgeView>, a: i32, b: i32) -> bool {
    let lhs = score_num(nodes, edges, a) * score_den(edges, b);
    let rhs = score_num(nodes, edges, b) * score_den(edges, a);
    lhs < rhs || (lhs == rhs && a < b)
}

/// Number of the first `n` nodes that lie on `level`.
pub open spec fn layer_size(nodes: Seq<NodeView>, level: i32, n: int) -> int
    decreases n,
{
    if n <= 0 {
        0
    } else {
        layer_size(nodes, level, n - 1) + if nodes[n - 1].level == level {
            1int
        } else {
            0
        }
    }
}

/// Number of the first `n` nodes on `level` that come before `id` in the
/// layer's order.
pub open spec fn layer_rank(
    nodes: Seq<NodeView>,
    edges: Seq<EdgeView>,
    level: i32,
    id: i32,
    n: int,
) -> int
    decreases n,
{
    if n <= 0 {
        0
    } else {
        layer_rank(nodes, edges, level, id, n - 1) + if nodes[n - 1].level == level && key_less(
            nodes,
            edges,
            nodes[n - 1].id,
            id,
        ) {
            1int
        } else {
            0
        }
    }
}

/// Doubled x coordinate of slot `rank` in a centred layer of `size` slots.
pub open spec fn slot_x2(grid: GridLayout, rank: int, size: int) -> int {
    grid.node_spacing * (2 * rank - size + 1)
}

/// Doubled y coordinate of a layer.
pub open spec fn layer_y2(grid: GridLayout, level: i32) -> int {
    2 * level * grid.layer_spacing + grid.node_height
}

/// The nodes after the layer on `level` has been placed: each node of the
/// layer moves to the slot given by its rank, all other nodes stay.
pub open spec fn place_layer(
    nodes: Seq<NodeView>,
    edges: Seq<EdgeView>,
    grid: GridLayout,
    level: i32,
) -> Seq<NodeView> {
    Seq::new(
        nodes.len(),
        |i: int|
            if nodes[i].level == level {
                NodeView {
                    x2: slot_x2(
                        grid,
                        layer_rank(nodes, edges, level, nodes[i].id, nodes.len() as int),
                        layer_size(nodes, level, nodes.len() as int),
                    ) as i64,
                    y2: layer_y2(grid, level) as i64,
                    ..nodes[i]
                }
            } else {
                nodes[i]
            },
    )
}

/// The nodes after every layer below `bound` has been placed, lowest level
/// first.
pub open spec fn place_layers_below(
    nodes: Seq<NodeView>,
    edges: Seq<EdgeView>,
    grid: GridLayout,
    bound: int,
) -> Seq<NodeView>
    decreases bound - i32::MIN,
{
    if bound <= i32::MIN {
        nodes
    } else {
        place_layer(place_layers_below(nodes, edges, grid, bound - 1), edges, grid, (bound - 1) as i32)
    }
}

/// The nodes after all layers have been placed.
pub open spec fn placed(nodes: Seq<NodeView>, edges: Seq<EdgeView>, grid: GridLayout) -> Seq<
    NodeView,
> {
    place_layers_below(nodes, edges, grid, i32::MAX + 1)
}

/// Every edge that ends at a node starts at a node.
pub open spec fn parents_present(nodes: Seq<NodeView>, edges: Seq<EdgeView>) -> bool {
    forall|k: int|
        0 <= k < edges.len() && has_id(nodes, #[trigger] edges[k].target) ==> has_id(
            nodes,
            edges[k].source,
        )
}

/// Two node sequences agree on everything but the coordinates.
pub open spec fn same_but_coords(a: Seq<NodeView>, b: Seq<NodeView>) -> bool {
    &&& a.len() == b.len()
    &&& forall|i: int|
        0 <= i < a.len() ==> {
            &&& (#[trigger] a[i]).id == b[i].id
            &&& a[i].level == b[i].level
            &&& a[i].label == b[i].label
            &&& a[i].is_dummy == b[i].is_dummy
        }
}

/// The lowest level above `prev` (every level when `prev` is `None`).
pub open spec fn above(prev: Option<i32>, level: i32) -> bool {
    match prev {
        Some(p) => level > p,
        None => true,
    }
}

/// The first bound not yet placed after the layers up to `prev`.
pub open spec fn bound_after(prev: Option<i32>) -> int {
    match prev {
        Some(p) => p + 1,
        None => i32::MIN as int,
    }
}

proof fn lemma_place_layer_keeps(nodes: Seq<NodeView>, edges: Seq<EdgeView>, grid: GridLayout, level: i32)
    ensures
        same_but_coords(place_layer(nodes, edges, grid, level), nodes),
{
}

pub(crate) proof fn lemma_place_layers_below_keeps(
    nodes: Seq<NodeView>,
    edges: Seq<EdgeView>,
    grid: GridLayout,
    bound: int,
)
    ensures
        same_but_coords(place_layers_below(nodes, edges, grid, bound), nodes),
    decreases bound - i32::MIN,
{
    if bound > i32::MIN {
        lemma_place_layers_below_keeps(nodes, edges, grid, bound - 1);
        lemma_place_layer_keeps(place_layers_below(nodes, edges, grid, bound - 1), edges, grid, (bound - 1) as i32);
    }
}

/// Placing the layers between `lo` and `hi` changes nothing when no node lies there.
proof fn lemma_skip_empty_levels(
    nodes: Seq<NodeView>,
    edges: Seq<EdgeView>,
    grid: GridLayout,
    lo: int,
    hi: int,
)
    requires
        i32::MIN <= lo <= hi <= i32::MAX + 1,
        forall|i: int| 0 <= i < nodes.len() ==> !(lo <= #[trigger] nodes[i].level < hi),
    ensures
        place_layers_below(nodes, edges, grid, hi) == place_layers_below(nodes, edges, grid, lo),
    decreases hi - lo,
{
    if hi > lo {
        lemma_skip_empty_levels(nodes, edges, grid, lo, hi - 1);
        let prev = place_layers_below(nodes, edges, grid, hi - 1);
        lemma_place_layers_below_keeps(nodes, edges, grid, hi - 1);
        assert forall|i: int| 0 <= i < prev.len() implies prev[i].level != (hi - 1) as i32 by {
            assert(prev[i].level == nodes[i].level);
        }
        assert(place_layer(prev, edges, grid, (hi - 1) as i32) =~= prev);
    }
}

proof fn lemma_same_ids_has_id(a: Seq<NodeView>, b: Seq<NodeView>, id: i32)
    requires
        same_but_coords(a, b),
    ensures
        has_id(a, id) == has_id(b, id),
{
    if has_id(a, id) {
        let i = choose|i: int| 0 <= i < a.len() && a[i].id == id;
        assert(b[i].id == id);
    }
    if has_id(b, id) {
        let i = choose|i: int| 0 <= i < b.len() && b[i].id == id;
        assert(a[i].id == id);
    }
}

/// The lowest level above `prev`, if any node lies above it.
fn next_level_above(nodes: &Vec<Node>, prev: Option<i32>) -> (res: Option<i32>)
    ensures
        match res {
            Some(l) => {
                &&& above(prev, l)
                &&& exists|i: int| 0 <= i < nodes.len() && nodes@[i].level == l
                &&& forall|i: int|
                    0 <= i < nodes.len() && above(prev, #[trigger] nodes@[i].level) ==> l
                        <= nodes@[i].level
            },
            None => forall|i: int| 0 <= i < nodes.len() ==> !above(prev, #[trigger] nodes@[i].level),
        },
{
    let mut best: Option<i32> = None;
    let mut i: usize = 0;
    while i < nodes.len()
        invariant
            i <= nodes.len(),
            match best {
                Some(l) => {
                    &&& above(prev, l)
                    &&& exists|j: int| 0 <= j < i && nodes@[j].level == l
                    &&& forall|j: int|
                        0 <= j < i && above(prev, #[trigger] nodes@[j].level) ==> l
                            <= nodes@[j].level
                },
                None => forall|j: int| 0 <= j < i ==> !above(prev, #[trigger] nodes@[j].level),
            },
        decreases nodes.len() - i,
    {
        let lv = nodes[i].level;
        let is_above = match prev {
            Some(p) => lv > p,
            None => true,
        };
        if is_above {
            match best {
                Some(b) => {
                    if lv < b {
                        best = Some(lv);
                    }
                },
                None => {
                    best = Some(lv);
                },
            }
        }
        i += 1;
    }
    best
}

/// Compares two layer keys `(score, id)`; scores are the fractions `num / den`.
fn key_less_exec(na: i128, da: i128, ida: i32, nb: i128, db: i128, idb: i32) -> (res: bool)
    requires
        -0x8000_0000_0000_0000_0000_0000 <= na <= 0x8000_0000_0000_0000_0000_0000,
        -0x8000_0000_0000_0000_0000_0000 <= nb <= 0x8000_0000_0000_0000_0000_0000,
        1 <= da <= 0x8000_0000,
        1 <= db <= 0x8000_0000,
    ensures
        res == ((na * db < nb * da) || (na * db == nb * da && ida < idb)),
{
    assert(-0x4000_0000_0000_0000_0000_0000_0000_0000 <= na * db <= 0x4000_0000_0000_0000_0000_0000_0000_0000)
        by (nonlinear_arith)
        requires
            -0x8000_0000_0000_0000_0000_0000 <= na <= 0x8000_0000_0000_0000_0000_0000,
            1 <= db <= 0x8000_0000,
    ;
    assert(-0x4000_0000_0000_0000_0000_0000_0000_0000 <= nb * da <= 0x4000_0000_0000_0000_0000_0000_0000_0000)
        by (nonlinear_arith)
        requires
            -0x8000_0000_0000_0000_0000_0000 <= nb <= 0x8000_0000_0000_0000_0000_0000,
            1 <= da <= 0x8000_0000,
    ;
    let lhs = na * db;
    let rhs = nb * da;
    lhs < rhs || (lhs == rhs && ida < idb)
}

impl Graph {
    /// Barycenter score of the node `id` as the fraction `(num, den)`.
    fn score_of(&self, id: i32) -> (res: (i128, i128))
        requires
            has_id(self@.nodes, id),
            parents_present(self@.nodes, self@.edges),
            self@.edges.len() <= i32::MAX,
        ensures
            res.0 == score_num(self@.nodes, self@.edges, id),
            res.1 == score_den(self@.edges, id),
            -0x8000_0000_0000_0000_0000_0000 <= res.0 <= 0x8000_0000_0000_0000_0000_0000,
            1 <= res.1 <= 0x8000_0000,
    {
        let ghost s = self@.nodes;
        let ghost es = self@.edges;
        let mut sum: i128 = 0;
        let mut cnt: i128 = 0;
        let mut k: usize = 0;
        while k < self.edges.len()
            invariant
                s == self@.nodes,
                es == self@.edges,
                self.edges@.len() == es.len(),
                es.len() <= i32::MAX,
                has_id(s, id),
                parents_present(s, es),
                k <= es.len(),
                sum == parent_sum(s, es, id, k as int),
                cnt == parent_count(es, id, k as int),
                0 <= cnt <= k,
                -(k * 0x8000_0000_0000_0000) <= sum <= k * 0x8000_0000_0000_0000,
            decreases es.len() - k,
        {
            proof {
                assert(self.edges@[k as int]@ == es[k as int]);
            }
            if self.edges[k].target == id {
                let src = self.edges[k].source;
                assert(has_id(s, es[k as int].target));
                let found = find_node(&self.nodes, src);
                match found {
                    Some(j) => {
                        assert(self.nodes@[j as int]@ == s[j as int]);
                        let x = self.nodes[j].x2;
                        sum = sum + x as i128;
                        cnt = cnt + 1;
                    },
                    None => {
                        assert(false);
                    },
                }
            }
            k += 1;
        }
        if cnt == 0 {
            (2 * (id as i128), 1)
        } else {
            (sum, cnt)
        }
    }
}


/// `nums[j] / dens[j]` is the score of every node `j < upto` on `level`.
spec fn scores_recorded(
    s: Seq<NodeView>,
    es: Seq<EdgeView>,
    level: i32,
    nums: Seq<i128>,
    dens: Seq<i128>,
    upto: int,
) -> bool {
    forall|j: int|
        #![trigger nums[j]]
        0 <= j < upto && s[j].level == level ==> {
            &&& nums[j] == score_num(s, es, s[j].id)
            &&& dens[j] == score_den(es, s[j].id)
            &&& -0x8000_0000_0000_0000_0000_0000 <= nums[j] <= 0x8000_0000_0000_0000_0000_0000
            &&& 1 <= dens[j] <= 0x8000_0000
        }
}

/// `xs[j]` is the placed x coordinate of every node `j < upto` on `level`.
spec fn slots_recorded(
    s: Seq<NodeView>,
    es: Seq<EdgeView>,
    grid: GridLayout,
    level: i32,
    xs: Seq<i64>,
    upto: int,
) -> bool {
    forall|j: int|
        #![trigger xs[j]]
        0 <= j < upto && s[j].level == level ==> xs[j] == slot_x2(
            grid,
            layer_rank(s, es, level, s[j].id, s.len() as int),
            layer_size(s, level, s.len() as int),
        )
}

impl Graph {
    /// Scores of the nodes on `level`, at their positions; 0/1 elsewhere.
    fn layer_scores(&self, level: i32) -> (res: (Vec<i128>, Vec<i128>))
        requires
            self@.nodes.len() <= i32::MAX,
            self@.edges.len() <= i32::MAX,
            parents_present(self@.nodes, self@.edges),
        ensures
            res.0@.len() == self@.nodes.len(),
            res.1@.len() == self@.nodes.len(),
            scores_recorded(self@.nodes, self@.edges, level, res.0@, res.1@, self@.nodes.len() as int),
    {
        let ghost s = self@.nodes;
        let ghost es = self@.edges;
        let n = self.nodes.len();
        let mut nums: Vec<i128> = Vec::new();
        let mut dens: Vec<i128> = Vec::new();
        let mut i: usize = 0;
        while i < n
            invariant
                s == self@.nodes,
                es == self@.edges,
                n == s.len(),
                es.len() <= i32::MAX,
                parents_present(s, es),
                i <= n,
                nums@.len() == i,
                dens@.len() == i,
                scores_recorded(s, es, level, nums@, dens@, i as int),
            decreases n - i,
        {
            proof {
                assert(self.nodes@[i as int]@ == s[i as int]);
            }
            let ghost old_nums = nums@;
            let ghost old_dens = dens@;
            if self.nodes[i].level == level {
                proof {
                    assert(has_id(s, s[i as int].id));
                }
                let sc = self.score_of(self.nodes[i].id);
                nums.push(sc.0);
                dens.push(sc.1);
            } else {
                nums.push(0);
                dens.push(1);
            }
            proof {
                assert forall|j: int| 0 <= j < i + 1 && s[j].level == level implies {
                    &&& nums@[j] == score_num(s, es, s[j].id)
                    &&& dens@[j] == score_den(es, s[j].id)
                    &&& -0x8000_0000_0000_0000_0000_0000 <= nums@[j] <= 0x8000_0000_0000_0000_0000_0000
                    &&& 1 <= dens@[j] <= 0x8000_0000
                } by {
                    if j < i {
                        assert(nums@[j] == old_nums[j]);
                        assert(dens@[j] == old_dens[j]);
                    }
                }
            }
            i += 1;
        }
        (nums, dens)
    }

    /// Number of nodes on `level` and the placed x coordinates of them.
    fn layer_slots(&self, level: i32, grid: &GridLayout) -> (res: Vec<i64>)
        requires
            self@.nodes.len() <= i32::MAX,
            self@.edges.len() <= i32::MAX,
            parents_present(self@.nodes, self@.edges),
        ensures
            res@.len() == self@.nodes.len(),
            slots_recorded(self@.nodes, self@.edges, *grid, level, res@, self@.nodes.len() as int),
    {
        let ghost s = self@.nodes;
        let ghost es = self@.edges;
        let n = self.nodes.len();
        let (nums, dens) = self.layer_scores(level);
        let mut size: i64 = 0;
        let mut i: usize = 0;
        while i < n
            invariant
                s == self@.nodes,
                n == s.len(),
                n <= i32::MAX,
                i <= n,
                size == layer_size(s, level, i as int),
                0 <= size <= i,
            decreases n - i,
        {
            proof {
                assert(self.nodes@[i as int]@ == s[i as int]);
            }
            if self.nodes[i].level == level {
                size = size + 1;
            }
            i += 1;
        }
        let mut xs: Vec<i64> = Vec::new();
        i = 0;
        while i < n
            invariant
                s == self@.nodes,
                es == self@.edges,
                n == s.len(),
                n <= i32::MAX,
                i <= n,
                nums@.len() == n,
                dens@.len() == n,
                size == layer_size(s, level, n as int),
                0 <= size <= n,
                xs@.len() == i,
                scores_recorded(s, es, level, nums@, dens@, n as int),
                slots_recorded(s, es, *grid, level, xs@, i as int),
            decreases n - i,
        {
            proof {
                assert(self.nodes@[i as int]@ == s[i as int]);
            }
            let ghost old_xs = xs@;
            if self.nodes[i].level == level {
                let id = self.nodes[i].id;
                assert(nums@[i as int] == score_num(s, es, s[i as int].id));
                let mut rank: i64 = 0;
                let mut j: usize = 0;
                while j < n
                    invariant
                        s == self@.nodes,
                        es == self@.edges,
                        n == s.len(),
                        n <= i32::MAX,
                        i < n,
                        j <= n,
                        id == s[i as int].id,
                        s[i as int].level == level,
                        nums@.len() == n,
                        dens@.len() == n,
                        scores_recorded(s, es, level, nums@, dens@, n as int),
                        rank == layer_rank(s, es, level, id, j as int),
                        0 <= rank <= j,
                    decreases n - j,
                {
                    proof {
                        assert(self.nodes@[j as int]@ == s[j as int]);
                    }
                    if self.nodes[j].level == level {
                        assert(nums@[j as int] == score_num(s, es, s[j as int].id));
                        assert(nums@[i as int] == score_num(s, es, s[i as int].id));
                        let less = key_less_exec(nums[j], dens[j], self.nodes[j].id, nums[i], dens[i], id);
                        if less {
                            rank = rank + 1;
                        }
                    }
                    j += 1;
                }
                let offset: i64 = 2 * rank - size + 1;
                assert(-0x1_0000_0000_0000 <= (grid.node_spacing as i64) * offset <= 0x1_0000_0000_0000)
                    by (nonlinear_arith)
                    requires
                        -0x1_0000_0000 <= offset <= 0x1_0000_0000,
                        0 <= grid.node_spacing <= 0xffff,
                ;
                let x2 = (grid.node_spacing as i64) * offset;
                xs.push(x2);
            } else {
                xs.push(0);
            }
            proof {
                assert forall|j: int| 0 <= j < i + 1 && s[j].level == level implies xs@[j] == slot_x2(
                    *grid,
                    layer_rank(s, es, level, s[j].id, s.len() as int),
                    layer_size(s, level, s.len() as int),
                ) by {
                    if j < i {
                        assert(xs@[j] == old_xs[j]);
                    }
                }
            }
            i += 1;
        }
        xs
    }

    /// Places the layer on `level`: every node of the layer moves to the
    /// slot given by its rank in the layer's order.
    fn place_one_layer(&mut self, level: i32, grid: &GridLayout)
        requires
            old(self)@.nodes.len() <= i32::MAX,
            old(self)@.edges.len() <= i32::MAX,
            parents_present(old(self)@.nodes, old(self)@.edges),
        ensures
            final(self)@.nodes == place_layer(old(self)@.nodes, old(self)@.edges, *grid, level),
            final(self)@.edges == old(self)@.edges,
            final(self)@.next_id == old(self)@.next_id,
    {
        let ghost s = self@.nodes;
        let ghost es = self@.edges;
        let ghost t = place_layer(s, es, *grid, level);
        let n = self.nodes.len();
        let xs = self.layer_slots(level, grid);
        assert(-0x2_0000_0000_0000 <= 2 * (level as i64) * (grid.layer_spacing as i64) <= 0x2_0000_0000_0000)
            by (nonlinear_arith)
            requires
                i32::MIN <= level <= i32::MAX,
                0 <= grid.layer_spacing <= 0xffff,
        ;
        let y2 = 2 * (level as i64) * (grid.layer_spacing as i64) + grid.node_height as i64;
        let mut i: usize = 0;
        while i < n
            invariant
                es == self@.edges,
                self@.next_id == old(self)@.next_id,
                self.nodes@.len() == n,
                n == s.len(),
                t == place_layer(s, es, *grid, level),
                i <= n,
                xs@.len() == n,
                slots_recorded(s, es, *grid, level, xs@, n as int),
                y2 == layer_y2(*grid, level),
                forall|j: int| 0 <= j < i ==> #[trigger] self.nodes@[j]@ == t[j],
                forall|j: int| i <= j < n ==> #[trigger] self.nodes@[j]@ == s[j],
            decreases n - i,
        {
            let ghost before = self.nodes@;
            assert(before[i as int]@ == s[i as int]);
            if self.nodes[i].level == level {
                assert(xs@[i as int] == slot_x2(
                    *grid,
                    layer_rank(s, es, level, s[i as int].id, s.len() as int),
                    layer_size(s, level, s.len() as int),
                ));
                self.nodes[i].x2 = xs[i];
                self.nodes[i].y2 = y2;
            }
            assert(self.nodes@[i as int]@ == t[i as int]);
            assert forall|j: int| 0 <= j < n && j != i implies #[trigger] self.nodes@[j] == before[j] by {}
            i += 1;
        }
        proof {
            assert(self@.nodes =~= t);
        }
    }
}


/// `parents_present` depends on the ids alone.
proof fn lemma_parents_present_same_ids(a: Seq<NodeView>, b: Seq<NodeView>, edges: Seq<EdgeView>)
    requires
        same_but_coords(a, b),
        parents_present(b, edges),
    ensures
        parents_present(a, edges),
{
    assert forall|k: int|
        0 <= k < edges.len() && has_id(a, #[trigger] edges[k].target) implies has_id(a, edges[k].source) by {
        lemma_same_ids_has_id(a, b, edges[k].target);
        lemma_same_ids_has_id(a, b, edges[k].source);
    }
}

impl Graph {
    /// Assigns every node its coordinates: layers are taken from the lowest
    /// level up; the nodes of a layer are ordered by the barycenter of their
    /// parents' x coordinates (a node without parents scores its id), ties
    /// broken by id, and spread over evenly spaced slots centred on x = 0;
    /// the y coordinate grows with the level.
    pub fn compute_horizontal_positions(&mut self, grid: &GridLayout)
        requires
            old(self)@.nodes.len() <= i32::MAX,
            old(self)@.edges.len() <= i32::MAX,
            ids_distinct(old(self)@.nodes),
            parents_present(old(self)@.nodes, old(self)@.edges),
        ensures
            final(self)@.nodes == placed(old(self)@.nodes, old(self)@.edges, *grid),
            final(self)@.edges == old(self)@.edges,
            final(self)@.next_id == old(self)@.next_id,
            old(self)@.ids_are_positions() ==> final(self)@.ids_are_positions(),
    {
        let ghost s0 = self@.nodes;
        let ghost es = self@.edges;
        let mut prev: Option<i32> = None;
        loop
            invariant
                es == self@.edges,
                self@.next_id == old(self)@.next_id,
                s0.len() <= i32::MAX,
                es.len() <= i32::MAX,
                parents_present(s0, es),
                i32::MIN <= bound_after(prev) <= i32::MAX + 1,
                self@.nodes == place_layers_below(s0, es, *grid, bound_after(prev)),
                same_but_coords(self@.nodes, s0),
            ensures
                self@.nodes == placed(s0, es, *grid),
                es == self@.edges,
                self@.next_id == old(self)@.next_id,
            decreases i32::MAX + 1 - bound_after(prev),
        {
            let ghost cur = self@.nodes;
            assert(self.nodes@.map_values(|n: Node| n@) == cur);
            let next = next_level_above(&self.nodes, prev);
            match next {
                None => {
                    proof {
                        assert forall|i: int| 0 <= i < s0.len() implies !(bound_after(prev)
                            <= #[trigger] s0[i].level < i32::MAX + 1) by {
                            assert(self.nodes@[i]@ == cur[i]);
                            assert(!above(prev, self.nodes@[i].level));
                        }
                        lemma_skip_empty_levels(s0, es, *grid, bound_after(prev), i32::MAX + 1);
                    }
                    break;
                },
                Some(l) => {
                    proof {
                        assert forall|i: int| 0 <= i < s0.len() implies !(bound_after(prev)
                            <= #[trigger] s0[i].level < l) by {
                            assert(self.nodes@[i]@ == cur[i]);
                            if bound_after(prev) <= s0[i].level {
                                assert(above(prev, self.nodes@[i].level));
                            }
                        }
                        lemma_skip_empty_levels(s0, es, *grid, bound_after(prev), l as int);
                        lemma_parents_present_same_ids(cur, s0, es);
                    }
                    self.place_one_layer(l, grid);
                    proof {
                        lemma_place_layer_keeps(cur, es, *grid, l);
                        assert(place_layers_below(s0, es, *grid, l + 1) == place_layer(
                            place_layers_below(s0, es, *grid, l as int),
                            es,
                            *grid,
                            l,
                        ));
                    }
                    prev = Some(l);
                },
            }
        }
    }
}

} // verus!
