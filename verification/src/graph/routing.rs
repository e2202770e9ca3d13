use vstd::prelude::*;

use crate::edge::{Edge, EdgeView};
use crate::graph::{endpoints_present, find_node, has_id, ids_distinct, index_of, lemma_index_of_distinct, Graph};
use crate::node::NodeView;

verus! {

/// Doubled coordinates of the node with the id.
pub open spec fn position_of(nodes: Seq<NodeView>, id: i32) -> (i64, i64) {
    (nodes[index_of(nodes, id)].x2, nodes[index_of(nodes, id)].y2)
}

/// The edges, each drawn as the straight segment from its source node to
/// its target node.
pub open spec fn routed(nodes: Seq<NodeView>, edges: Seq<EdgeView>) -> Seq<EdgeView> {
    Seq::new(
        edges.len(),
        |k: int|
            EdgeView {
                route: seq![position_of(nodes, edges[k].source), position_of(nodes, edges[k].target)],
                ..edges[k]
            },
    )
}

/// Orientation of the triple `(p, q, r)`: 1 when it turns one way, 2 when it
/// turns the other, 0 when the points are collinear.
pub open spec fn orientation(p: (i64, i64), q: (i64, i64), r: (i64, i64)) -> int {
    let val = (q.1 - p.1) * (r.0 - q.0) - (q.0 - p.0) * (r.1 - q.1);
    if val > 0 {
        1
    } else if val < 0 {
        2
    } else {
        0
    }
}

/// The two edges share an endpoint.
pub open spec fn connected(a: EdgeView, b: EdgeView) -> bool {
    a.source == b.source || a.source == b.target || a.target == b.source || a.target == b.target
}

/// The route's first and last points exist and differ.
pub open spec fn has_segment(e: EdgeView) -> bool {
    e.route.len() > 0 && e.route[0] != e.route.last()
}

/// The segments from the first to the last route point of two unconnected
/// edges properly cross: each segment's endpoints lie strictly on opposite
/// sides of the other segment's line.
pub open spec fn edges_cross(a: EdgeView, b: EdgeView) -> bool {
    let p1 = a.route[0];
    let p2 = a.route.last();
    let q1 = b.route[0];
    let q2 = b.route.last();
    let o1 = orientation(p1, p2, q1);
    let o2 = orientation(p1, p2, q2);
    let o3 = orientation(q1, q2, p1);
    let o4 = orientation(q1, q2, p2);
    &&& !connected(a, b)
    &&& has_segment(a)
    &&& has_segment(b)
    &&& o1 != 0 && o2 != 0 && o3 != 0 && o4 != 0
    &&& o1 != o2 && o3 != o4
}

/// Edge `i` crosses some other edge.
pub open spec fn crosses_another(edges: Seq<EdgeView>, i: int) -> bool {
    exists|j: int| 0 <= j < edges.len() && j != i && edges_cross(edges[i], #[trigger] edges[j])
}

/// The edges with every edge that crosses another one flagged; flags that
/// were already set stay set.
pub open spec fn flag_crossings(edges: Seq<EdgeView>) -> Seq<EdgeView> {
    Seq::new(
        edges.len(),
        |i: int| EdgeView { crossing: edges[i].crossing || crosses_another(edges, i), ..edges[i] },
    )
}



/// Twice the signed area of the triangle `(p, q, r)`: positive when `r`
/// lies on one side of the line through `p` and `q`, negative on the
/// other, zero on the line.
pub open spec fn cross(p: (i64, i64), q: (i64, i64), r: (i64, i64)) -> int {
    (q.0 - p.0) * (r.1 - p.1) - (q.1 - p.1) * (r.0 - p.0)
}

proof fn lemma_turn_sign(p0: int, p1: int, q0: int, q1: int, r0: int, r1: int)
    by (nonlinear_arith)
    ensures
        (q0 - p0) * (r1 - p1) - (q1 - p1) * (r0 - p0) == -((q1 - p1) * (r0 - q0) - (q0 - p0) * (r1 - q1)),
{
}

proof fn lemma_orientation_cross(p: (i64, i64), q: (i64, i64), r: (i64, i64))
    ensures
        (orientation(p, q, r) == 1) == (cross(p, q, r) < 0),
        (orientation(p, q, r) == 2) == (cross(p, q, r) > 0),
        (orientation(p, q, r) == 0) == (cross(p, q, r) == 0),
{
    lemma_turn_sign(p.0 as int, p.1 as int, q.0 as int, q.1 as int, r.0 as int, r.1 as int);
}

proof fn lemma_opposite_signs(x: int, y: int)
    ensures
        (x * y < 0) == ((x > 0 && y < 0) || (x < 0 && y > 0)),
{
    assert((x * y < 0) == ((x > 0 && y < 0) || (x < 0 && y > 0))) by (nonlinear_arith);
}

/// Two edges are flagged as crossing exactly when they share no endpoint
/// and each one's segment has its two ends strictly on opposite sides of
/// the other one's line: both segments straddle each other.
pub proof fn law_crossing_is_straddling(a: EdgeView, b: EdgeView)
    ensures
        edges_cross(a, b) == ({
            let p1 = a.route[0];
            let p2 = a.route.last();
            let q1 = b.route[0];
            let q2 = b.route.last();
            &&& a.route.len() > 0 && b.route.len() > 0
            &&& a.source != b.source && a.source != b.target && a.target != b.source && a.target != b.target
            &&& cross(p1, p2, q1) * cross(p1, p2, q2) < 0
            &&& cross(q1, q2, p1) * cross(q1, q2, p2) < 0
        }),
{
    if a.route.len() > 0 && b.route.len() > 0 {
        let p1 = a.route[0];
        let p2 = a.route.last();
        let q1 = b.route[0];
        let q2 = b.route.last();
        lemma_orientation_cross(p1, p2, q1);
        lemma_orientation_cross(p1, p2, q2);
        lemma_orientation_cross(q1, q2, p1);
        lemma_orientation_cross(q1, q2, p2);
        lemma_opposite_signs(cross(p1, p2, q1), cross(p1, p2, q2));
        lemma_opposite_signs(cross(q1, q2, p1), cross(q1, q2, p2));
        if p1 == p2 {
            assert(cross(p1, p2, q1) == 0) by (nonlinear_arith)
                requires
                    p1 == p2,
            ;
        }
        if q1 == q2 {
            assert(cross(q1, q2, p1) == 0) by (nonlinear_arith)
                requires
                    q1 == q2,
            ;
        }
    }
}

/// The lines through two segments meet where the cross products say,
/// in coordinates relative to the second segment's start: `(pp0, pp1)` is
/// the first segment's start, `(v0, v1)` its direction, `(w0, w1)` the
/// second segment's direction.
proof fn lemma_meet_relative(pp0: int, pp1: int, v0: int, v1: int, w0: int, w1: int)
    ensures
        ({
            let c1 = w0 * pp1 - w1 * pp0;
            let c2 = w0 * (pp1 + v1) - w1 * (pp0 + v0);
            let e1 = v0 * (0 - pp1) - v1 * (0 - pp0);
            let e2 = v0 * (w1 - pp1) - v1 * (w0 - pp0);
            &&& e1 - e2 == -(c1 - c2)
            &&& (c1 - c2) * pp0 + c1 * v0 + e1 * w0 == 0
            &&& (c1 - c2) * pp1 + c1 * v1 + e1 * w1 == 0
        }),
{
    let c1 = w0 * pp1 - w1 * pp0;
    let c2 = w0 * (pp1 + v1) - w1 * (pp0 + v0);
    let e1 = v0 * (0 - pp1) - v1 * (0 - pp0);
    let e2 = v0 * (w1 - pp1) - v1 * (w0 - pp0);
    assert(w0 * (pp1 + v1) == w0 * pp1 + w0 * v1) by (nonlinear_arith);
    assert(w1 * (pp0 + v0) == w1 * pp0 + w1 * v0) by (nonlinear_arith);
    assert(v0 * (0 - pp1) == -(v0 * pp1)) by (nonlinear_arith);
    assert(v1 * (0 - pp0) == -(v1 * pp0)) by (nonlinear_arith);
    assert(v0 * (w1 - pp1) == v0 * w1 - v0 * pp1) by (nonlinear_arith);
    assert(v1 * (w0 - pp0) == v1 * w0 - v1 * pp0) by (nonlinear_arith);
    assert(w1 * v0 == v0 * w1) by (nonlinear_arith);
    assert(w0 * v1 == v1 * w0) by (nonlinear_arith);
    let d = c1 - c2;
    assert(d == v0 * w1 - v1 * w0);
    assert(e1 == v1 * pp0 - v0 * pp1);
    lemma_triple(pp0, pp1, v0, v1, w0, w1);
    lemma_triple_swapped(pp0, pp1, v0, v1, w0, w1);
}

/// In the plane, `(v × w) p + (w × p) v + (p × v) w = 0`: first coordinate.
proof fn lemma_triple(pp0: int, pp1: int, v0: int, v1: int, w0: int, w1: int)
    by (nonlinear_arith)
    ensures
        (v0 * w1 - v1 * w0) * pp0 + (w0 * pp1 - w1 * pp0) * v0 + (v1 * pp0 - v0 * pp1) * w0 == 0,
{
}

/// The same identity, second coordinate.
proof fn lemma_triple_swapped(pp0: int, pp1: int, v0: int, v1: int, w0: int, w1: int)
    by (nonlinear_arith)
    ensures
        (v0 * w1 - v1 * w0) * pp1 + (w0 * pp1 - w1 * pp0) * v1 + (v1 * pp0 - v0 * pp1) * w1 == 0,
{
}

proof fn lemma_distribute(d: int, x: int, y: int)
    by (nonlinear_arith)
    ensures
        d * (x - y) == d * x - d * y,
{
}

/// Where the lines of two segments meet, as the fraction `c1 / d` along
/// the first and `-e1 / d` along the second.
proof fn lemma_lines_meet(p1: (i64, i64), p2: (i64, i64), q1: (i64, i64), q2: (i64, i64))
    ensures
        ({
            let c1 = cross(q1, q2, p1);
            let c2 = cross(q1, q2, p2);
            let e1 = cross(p1, p2, q1);
            let e2 = cross(p1, p2, q2);
            let d = c1 - c2;
            &&& e1 - e2 == -d
            &&& d * p1.0 + c1 * (p2.0 - p1.0) == d * q1.0 - e1 * (q2.0 - q1.0)
            &&& d * p1.1 + c1 * (p2.1 - p1.1) == d * q1.1 - e1 * (q2.1 - q1.1)
        }),
{
    let pp0 = p1.0 - q1.0;
    let pp1 = p1.1 - q1.1;
    let v0 = p2.0 - p1.0;
    let v1 = p2.1 - p1.1;
    let w0 = q2.0 - q1.0;
    let w1 = q2.1 - q1.1;
    lemma_meet_relative(pp0, pp1, v0, v1, w0, w1);
    assert(p2.1 - q1.1 == pp1 + v1 && p2.0 - q1.0 == pp0 + v0);
    assert(q1.1 - p1.1 == 0 - pp1 && q1.0 - p1.0 == 0 - pp0);
    assert(q2.1 - p1.1 == w1 - pp1 && q2.0 - p1.0 == w0 - pp0);
    let d = cross(q1, q2, p1) - cross(q1, q2, p2);
    lemma_distribute(d, p1.0 as int, q1.0 as int);
    lemma_distribute(d, p1.1 as int, q1.1 as int);
}

/// The point `t / d` of the way from `p1` to `p2` is the point `u / d` of
/// the way from `q1` to `q2`, and both lie strictly inside their segments.
pub open spec fn meet_inside(
    p1: (i64, i64),
    p2: (i64, i64),
    q1: (i64, i64),
    q2: (i64, i64),
    t: int,
    u: int,
    d: int,
) -> bool {
    &&& 0 < t < d
    &&& 0 < u < d
    &&& d * p1.0 + t * (p2.0 - p1.0) == d * q1.0 + u * (q2.0 - q1.0)
    &&& d * p1.1 + t * (p2.1 - p1.1) == d * q1.1 + u * (q2.1 - q1.1)
}

/// Two routes flagged as crossing meet inside both segments: some point
/// lies strictly between the ends of each (as the fractions `t / d` and
/// `u / d` along them).
pub proof fn law_crossing_segments_meet(a: EdgeView, b: EdgeView)
    requires
        edges_cross(a, b),
    ensures
        exists|t: int, u: int, d: int|
            #[trigger] meet_inside(a.route[0], a.route.last(), b.route[0], b.route.last(), t, u, d),
{
    law_crossing_is_straddling(a, b);
    let p1 = a.route[0];
    let p2 = a.route.last();
    let q1 = b.route[0];
    let q2 = b.route.last();
    lemma_lines_meet(p1, p2, q1, q2);
    let c1 = cross(q1, q2, p1);
    let c2 = cross(q1, q2, p2);
    let e1 = cross(p1, p2, q1);
    let e2 = cross(p1, p2, q2);
    lemma_opposite_signs(c1, c2);
    lemma_opposite_signs(e1, e2);
    let d = c1 - c2;
    if d > 0 {
        assert(0 < c1 < d && 0 < -e1 < d);
        assert(d * p1.0 + c1 * (p2.0 - p1.0) == d * q1.0 + (-e1) * (q2.0 - q1.0)) by (nonlinear_arith)
            requires
                d * p1.0 + c1 * (p2.0 - p1.0) == d * q1.0 - e1 * (q2.0 - q1.0),
        ;
        assert(d * p1.1 + c1 * (p2.1 - p1.1) == d * q1.1 + (-e1) * (q2.1 - q1.1)) by (nonlinear_arith)
            requires
                d * p1.1 + c1 * (p2.1 - p1.1) == d * q1.1 - e1 * (q2.1 - q1.1),
        ;
        assert(meet_inside(p1, p2, q1, q2, c1, -e1, d));
    } else {
        assert(0 < -c1 < -d && 0 < e1 < -d);
        assert((-d) * p1.0 + (-c1) * (p2.0 - p1.0) == (-d) * q1.0 + e1 * (q2.0 - q1.0)) by (nonlinear_arith)
            requires
                d * p1.0 + c1 * (p2.0 - p1.0) == d * q1.0 - e1 * (q2.0 - q1.0),
        ;
        assert((-d) * p1.1 + (-c1) * (p2.1 - p1.1) == (-d) * q1.1 + e1 * (q2.1 - q1.1)) by (nonlinear_arith)
            requires
                d * p1.1 + c1 * (p2.1 - p1.1) == d * q1.1 - e1 * (q2.1 - q1.1),
        ;
        assert(meet_inside(p1, p2, q1, q2, -c1, e1, -d));
    }
}


/// Flagging marks an edge exactly when it was marked already or its
/// segment properly crosses the segment of another edge; it changes nothing
/// else of the edges.
pub proof fn law_flags_exact(edges: Seq<EdgeView>, i: int)
    requires
        0 <= i < edges.len(),
    ensures
        flag_crossings(edges).len() == edges.len(),
        flag_crossings(edges)[i].crossing == (edges[i].crossing || exists|j: int|
            0 <= j < edges.len() && j != i && #[trigger] edges_cross(edges[i], edges[j])),
        flag_crossings(edges)[i].source == edges[i].source,
        flag_crossings(edges)[i].target == edges[i].target,
        flag_crossings(edges)[i].original_source == edges[i].original_source,
        flag_crossings(edges)[i].route == edges[i].route,
{
    if exists|j: int| 0 <= j < edges.len() && j != i && #[trigger] edges_cross(edges[i], edges[j]) {
        let j = choose|j: int| 0 <= j < edges.len() && j != i && #[trigger] edges_cross(edges[i], edges[j]);
        assert(crosses_another(edges, i));
    }
}

/// A routed edge runs straight from the node it starts at to the node it
/// ends at: two points, the coordinates of those nodes.
pub proof fn law_routes_join_endpoints(nodes: Seq<NodeView>, edges: Seq<EdgeView>, k: int, s: int, t: int)
    requires
        ids_distinct(nodes),
        0 <= k < edges.len(),
        0 <= s < nodes.len(),
        0 <= t < nodes.len(),
        nodes[s].id == edges[k].source,
        nodes[t].id == edges[k].target,
    ensures
        routed(nodes, edges).len() == edges.len(),
        routed(nodes, edges)[k].route.len() == 2,
        routed(nodes, edges)[k].route[0] == (nodes[s].x2, nodes[s].y2),
        routed(nodes, edges)[k].route[1] == (nodes[t].x2, nodes[t].y2),
        routed(nodes, edges)[k].source == edges[k].source,
        routed(nodes, edges)[k].target == edges[k].target,
        routed(nodes, edges)[k].crossing == edges[k].crossing,
        routed(nodes, edges)[k].original_source == edges[k].original_source,
{
    lemma_index_of_distinct(nodes, s);
    lemma_index_of_distinct(nodes, t);
}

/// Absolute value.
pub open spec fn abs(x: int) -> int {
    if x < 0 {
        -x
    } else {
        x
    }
}

/// The product `a * b` as its sign and magnitude.
fn signed_product(a: i128, b: i128) -> (res: (bool, u128))
    requires
        -0xffff_ffff_ffff_ffff <= a <= 0xffff_ffff_ffff_ffff,
        -0xffff_ffff_ffff_ffff <= b <= 0xffff_ffff_ffff_ffff,
    ensures
        res.0 == (a * b < 0),
        res.1 as int == abs(a * b),
{
    let ua: u128 = if a < 0 {
        (-a) as u128
    } else {
        a as u128
    };
    let ub: u128 = if b < 0 {
        (-b) as u128
    } else {
        b as u128
    };
    assert(ua * ub <= 0xffff_ffff_ffff_ffff * 0xffff_ffff_ffff_ffff) by (nonlinear_arith)
        requires
            ua <= 0xffff_ffff_ffff_ffff,
            ub <= 0xffff_ffff_ffff_ffff,
    ;
    let m = ua * ub;
    assert(m as int == abs(a * b) && ((a * b < 0) == (m != 0 && ((a < 0) != (b < 0)))))
        by (nonlinear_arith)
        requires
            ua as int == abs(a as int),
            ub as int == abs(b as int),
            m as int == ua * ub,
    ;
    let neg = m != 0 && ((a < 0) != (b < 0));
    (neg, m)
}

/// Orientation of the triple `(p, q, r)`, computed exactly.
fn orientation_exec(p: (i64, i64), q: (i64, i64), r: (i64, i64)) -> (o: u8)
    ensures
        o == orientation(p, q, r),
{
    let a = q.1 as i128 - p.1 as i128;
    let b = r.0 as i128 - q.0 as i128;
    let c = q.0 as i128 - p.0 as i128;
    let d = r.1 as i128 - q.1 as i128;
    let (pn, pm) = signed_product(a, b);
    let (qn, qm) = signed_product(c, d);
    // the sign of (a * b) - (c * d)
    if !pn && qn {
        1
    } else if pn && !qn {
        if pm == 0 && qm == 0 {
            0
        } else {
            2
        }
    } else if !pn {
        if pm > qm {
            1
        } else if pm < qm {
            2
        } else {
            0
        }
    } else {
        if qm > pm {
            1
        } else if qm < pm {
            2
        } else {
            0
        }
    }
}

/// Whether the routes of two edges properly cross, as `edges_cross` says.
fn edges_cross_exec(a: &Edge, b: &Edge) -> (res: bool)
    ensures
        res == edges_cross(a@, b@),
{
    if a.source == b.source || a.source == b.target || a.target == b.source || a.target == b.target {
        return false;
    }
    let la = a.route.len();
    let lb = b.route.len();
    if la == 0 || lb == 0 {
        return false;
    }
    let p1 = a.route[0];
    let p2 = a.route[la - 1];
    let q1 = b.route[0];
    let q2 = b.route[lb - 1];
    if p1.0 == p2.0 && p1.1 == p2.1 {
        return false;
    }
    if q1.0 == q2.0 && q1.1 == q2.1 {
        return false;
    }
    let o1 = orientation_exec(p1, p2, q1);
    let o2 = orientation_exec(p1, p2, q2);
    let o3 = orientation_exec(q1, q2, p1);
    let o4 = orientation_exec(q1, q2, p2);
    if o1 == 0 || o2 == 0 || o3 == 0 || o4 == 0 {
        return false;
    }
    o1 != o2 && o3 != o4
}


/// Some crossing pair `(a, b)`, `a < b`, that comes before `(i, j)` in
/// lexicographic order involves edge `k`.
spec fn crossed_before(edges: Seq<EdgeView>, i: int, j: int, k: int) -> bool {
    exists|a: int, b: int|
        #![trigger edges_cross(edges[a], edges[b])]
        0 <= a < b < edges.len() && (a < i || (a == i && b < j)) && (k == a || k == b)
            && edges_cross(edges[a], edges[b])
}

/// The edges with the pairs before `(i, j)` flagged.
spec fn flagged_before(edges: Seq<EdgeView>, i: int, j: int) -> Seq<EdgeView> {
    Seq::new(
        edges.len(),
        |k: int| EdgeView { crossing: edges[k].crossing || crossed_before(edges, i, j, k), ..edges[k] },
    )
}

proof fn lemma_edges_cross_symmetric(a: EdgeView, b: EdgeView)
    ensures
        edges_cross(a, b) == edges_cross(b, a),
{
}

proof fn lemma_next_row(edges: Seq<EdgeView>, i: int)
    requires
        0 <= i,
    ensures
        flagged_before(edges, i, edges.len() as int) == flagged_before(edges, i + 1, i + 2),
{
    assert forall|k: int| 0 <= k < edges.len() implies crossed_before(edges, i, edges.len() as int, k)
        == crossed_before(edges, i + 1, i + 2, k) by {
        if crossed_before(edges, i + 1, i + 2, k) {
            let (a, b) = choose|a: int, b: int|
                #![trigger edges_cross(edges[a], edges[b])]
                0 <= a < b < edges.len() && (a < i + 1 || (a == i + 1 && b < i + 2)) && (k == a || k
                    == b) && edges_cross(edges[a], edges[b]);
            assert(a < i || (a == i && b < edges.len()));
        }
    }
    assert(flagged_before(edges, i, edges.len() as int) =~= flagged_before(edges, i + 1, i + 2));
}

proof fn lemma_all_pairs(edges: Seq<EdgeView>)
    ensures
        flagged_before(edges, edges.len() as int, edges.len() as int + 1) == flag_crossings(edges),
{
    let n = edges.len() as int;
    assert forall|k: int| 0 <= k < n implies crossed_before(edges, n, n + 1, k) == crosses_another(edges, k) by {
        if crossed_before(edges, n, n + 1, k) {
            let (a, b) = choose|a: int, b: int|
                #![trigger edges_cross(edges[a], edges[b])]
                0 <= a < b < n && (a < n || (a == n && b < n + 1)) && (k == a || k == b)
                    && edges_cross(edges[a], edges[b]);
            if k == a {
                assert(edges_cross(edges[k], edges[b]));
            } else {
                lemma_edges_cross_symmetric(edges[a], edges[b]);
                assert(edges_cross(edges[k], edges[a]));
            }
        }
        if crosses_another(edges, k) {
            let j = choose|j: int| 0 <= j < n && j != k && edges_cross(edges[k], #[trigger] edges[j]);
            if k < j {
                assert(edges_cross(edges[k], edges[j]));
            } else {
                lemma_edges_cross_symmetric(edges[k], edges[j]);
                assert(edges_cross(edges[j], edges[k]));
            }
        }
    }
    assert(flagged_before(edges, n, n + 1) =~= flag_crossings(edges));
}

impl Graph {
    /// Flags every edge whose route properly crosses the route of another
    /// edge that shares no endpoint with it; flags already set stay set.
    pub fn crossing_edges(&mut self)
        ensures
            final(self)@.edges == flag_crossings(old(self)@.edges),
            final(self)@.nodes == old(self)@.nodes,
            final(self)@.next_id == old(self)@.next_id,
            old(self)@.ids_are_positions() ==> final(self)@.ids_are_positions(),
    {
        let ghost es = self@.edges;
        let n = self.edges.len();
        proof {
            assert(flagged_before(es, 0, 1) =~= es);
        }
        let mut i: usize = 0;
        while i < n
            invariant
                n == es.len(),
                self.edges@.len() == n,
                i <= n,
                self@.nodes == old(self)@.nodes,
                self@.next_id == old(self)@.next_id,
                es == old(self)@.edges,
                self@.edges == flagged_before(es, i as int, i + 1),
            decreases n - i,
        {
            let mut j: usize = i + 1;
            while j < n
                invariant
                    n == es.len(),
                    self.edges@.len() == n,
                    i < n,
                    i + 1 <= j <= n,
                    self@.nodes == old(self)@.nodes,
                    self@.next_id == old(self)@.next_id,
                    es == old(self)@.edges,
                    self@.edges == flagged_before(es, i as int, j as int),
                decreases n - j,
            {
                let ghost cur = self@.edges;
                assert(self.edges@[i as int]@ == cur[i as int]);
                assert(self.edges@[j as int]@ == cur[j as int]);
                let c = edges_cross_exec(&self.edges[i], &self.edges[j]);
                assert(c == edges_cross(es[i as int], es[j as int]));
                if c {
                    self.edges[i].crossing = true;
                    self.edges[j].crossing = true;
                }
                proof {
                    let next = flagged_before(es, i as int, j + 1);
                    assert forall|k: int| 0 <= k < n implies #[trigger] self@.edges[k] == next[k] by {
                        assert(self@.edges[k] == self.edges@[k]@);
                        if c && (k == i || k == j) {
                            assert(crossed_before(es, i as int, j + 1, k)) by {
                                assert(edges_cross(es[i as int], es[j as int]));
                            }
                        } else {
                            assert(self.edges@[k]@ == cur[k]);
                            if crossed_before(es, i as int, j + 1, k) {
                                let (a, b) = choose|a: int, b: int|
                                    #![trigger edges_cross(es[a], es[b])]
                                    0 <= a < b < es.len() && (a < i || (a == i && b < j + 1)) && (k
                                        == a || k == b) && edges_cross(es[a], es[b]);
                                if a == i && b == j {
                                } else {
                                    assert(crossed_before(es, i as int, j as int, k));
                                }
                            }
                        }
                    }
                    assert(self@.edges =~= next);
                }
                j += 1;
            }
            proof {
                lemma_next_row(es, i as int);
            }
            i += 1;
        }
        proof {
            lemma_all_pairs(es);
        }
    }

    /// Doubled coordinates of the node with the id.
    fn node_position(&self, id: i32) -> (p: (i64, i64))
        requires
            has_id(self@.nodes, id),
        ensures
            p == position_of(self@.nodes, id),
    {
        match find_node(&self.nodes, id) {
            Some(i) => {
                assert(self.nodes@[i as int]@ == self@.nodes[i as int]);
                (self.nodes[i].x2, self.nodes[i].y2)
            },
            None => {
                assert(false);
                (0, 0)
            },
        }
    }

    /// Draws every edge as the straight segment from its source node to its
    /// target node.
    pub fn route_edges_straight(&mut self)
        requires
            endpoints_present(old(self)@.nodes, old(self)@.edges),
        ensures
            final(self)@.edges == routed(old(self)@.nodes, old(self)@.edges),
            final(self)@.nodes == old(self)@.nodes,
            final(self)@.next_id == old(self)@.next_id,
            old(self)@.ids_are_positions() ==> final(self)@.ids_are_positions(),
    {
        let ghost ns = self@.nodes;
        let ghost es = self@.edges;
        let ghost t = routed(ns, es);
        let n = self.edges.len();
        let mut k: usize = 0;
        while k < n
            invariant
                n == es.len(),
                self.edges@.len() == n,
                k <= n,
                self@.nodes == ns,
                self@.next_id == old(self)@.next_id,
                t == routed(ns, es),
                endpoints_present(ns, es),
                forall|j: int| 0 <= j < k ==> #[trigger] self.edges@[j]@ == t[j],
                forall|j: int| k <= j < n ==> #[trigger] self.edges@[j]@ == es[j],
            decreases n - k,
        {
            let ghost before = self.edges@;
            assert(before[k as int]@ == es[k as int]);
            assert(has_id(ns, es[k as int].source));
            let sp = self.node_position(self.edges[k].source);
            let tp = self.node_position(self.edges[k].target);
            let mut route: Vec<(i64, i64)> = Vec::new();
            route.push(sp);
            route.push(tp);
            self.edges[k].route = route;
            assert(self.edges@[k as int]@.route =~= t[k as int].route);
            assert(self.edges@[k as int]@ == t[k as int]);
            assert forall|j: int| 0 <= j < n && j != k implies #[trigger] self.edges@[j] == before[j] by {}
            k += 1;
        }
        proof {
            assert(self@.edges =~= t);
        }
    }
}

} // verus!
