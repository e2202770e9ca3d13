use vstd::prelude::*;

use crate::edge::{Edge, EdgeView};
use crate::graph::expand::{copy_edge, edges_view};

verus! {

/// Edge `a` comes no later than edge `b` when edges are ordered by source
/// id, then by target id.
pub open spec fn ends_le(a: EdgeView, b: EdgeView) -> bool {
    a.source < b.source || (a.source == b.source && a.target <= b.target)
}

/// The two edges join the same pair of ids.
pub open spec fn same_ends(a: EdgeView, b: EdgeView) -> bool {
    a.source == b.source && a.target == b.target
}

/// The edges are ordered by (source, target).
pub open spec fn ordered_by_ends(s: Seq<EdgeView>) -> bool {
    forall|i: int, j: int| 0 <= i < j < s.len() ==> ends_le(#[trigger] s[i], #[trigger] s[j])
}

/// Where `e` joins `s`: just after the last edge, counted from the back,
/// whose ends come no later than those of `e`.
pub open spec fn insert_pos(s: Seq<EdgeView>, e: EdgeView) -> int
    decreases s.len(),
{
    if s.len() == 0 {
        0
    } else if ends_le(s.last(), e) {
        s.len() as int
    } else {
        insert_pos(s.drop_last(), e)
    }
}

/// The edges sorted by (source, target) ids; edges joining the same pair
/// keep their relative order.
pub open spec fn sorted_by_ends(edges: Seq<EdgeView>) -> Seq<EdgeView>
    decreases edges.len(),
{
    if edges.len() == 0 {
        Seq::empty()
    } else {
        let s = sorted_by_ends(edges.drop_last());
        s.insert(insert_pos(s, edges.last()), edges.last())
    }
}

/// In an ordered sequence, the edges before `insert_pos` come no later
/// than `e` and the edges from it on come strictly later.
proof fn lemma_insert_pos(s: Seq<EdgeView>, e: EdgeView)
    requires
        ordered_by_ends(s),
    ensures
        0 <= insert_pos(s, e) <= s.len(),
        forall|i: int| 0 <= i < insert_pos(s, e) ==> ends_le(#[trigger] s[i], e),
        forall|i: int| insert_pos(s, e) <= i < s.len() ==> !ends_le(#[trigger] s[i], e),
    decreases s.len(),
{
    if s.len() > 0 {
        let t = s.drop_last();
        assert(ordered_by_ends(t)) by {
            assert forall|i: int, j: int| 0 <= i < j < t.len() implies ends_le(#[trigger] t[i], #[trigger] t[j]) by {
                assert(ends_le(s[i], s[j]));
            }
        }
        lemma_insert_pos(t, e);
        if ends_le(s.last(), e) {
            assert forall|i: int| 0 <= i < s.len() implies ends_le(#[trigger] s[i], e) by {
                if i < s.len() - 1 {
                    assert(ends_le(s[i], s[s.len() - 1]));
                }
            }
        } else {
            assert forall|i: int| insert_pos(s, e) <= i < s.len() implies !ends_le(#[trigger] s[i], e) by {
                if i < s.len() - 1 {
                    assert(s[i] == t[i]);
                }
            }
            assert forall|i: int| 0 <= i < insert_pos(s, e) implies ends_le(#[trigger] s[i], e) by {
                assert(s[i] == t[i]);
            }
        }
    }
}

/// Sorting by ends gives an ordered permutation of the edges in which the
/// edges joining any one pair of ids keep their relative order.
pub proof fn law_sorted_by_ends(edges: Seq<EdgeView>, k: EdgeView)
    ensures
        ordered_by_ends(sorted_by_ends(edges)),
        forall|i: int, j: int|
            0 <= i < j < sorted_by_ends(edges).len() ==> #[trigger] sorted_by_ends(edges)[i].source
                < #[trigger] sorted_by_ends(edges)[j].source || (sorted_by_ends(edges)[i].source
                == sorted_by_ends(edges)[j].source && sorted_by_ends(edges)[i].target <= sorted_by_ends(
                edges,
            )[j].target),
        sorted_by_ends(edges).to_multiset() == edges.to_multiset(),
        sorted_by_ends(edges).len() == edges.len(),
        sorted_by_ends(edges).filter(|e: EdgeView| same_ends(e, k)) == edges.filter(
            |e: EdgeView| same_ends(e, k),
        ),
    decreases edges.len(),
{
    broadcast use vstd::seq_lib::to_multiset_insert;

    let pred = |e: EdgeView| same_ends(e, k);
    if edges.len() == 0 {
        reveal(Seq::filter);
        assert(sorted_by_ends(edges) =~= edges);
    } else {
        let t = edges.drop_last();
        let e = edges.last();
        law_sorted_by_ends(t, k);
        let s = sorted_by_ends(t);
        lemma_insert_pos(s, e);
        let p = insert_pos(s, e);
        let r = s.insert(p, e);
        assert(r == sorted_by_ends(edges));
        assert forall|i: int, j: int| 0 <= i < j < r.len() implies ends_le(#[trigger] r[i], #[trigger] r[j]) by {
            if j < p {
                assert(r[i] == s[i] && r[j] == s[j]);
            } else if j == p {
                assert(r[i] == s[i]);
            } else if i < p {
                assert(r[i] == s[i] && r[j] == s[j - 1]);
                assert(ends_le(s[i], e));
                assert(!ends_le(s[j - 1], e));
            } else if i == p {
                assert(r[j] == s[j - 1]);
                assert(!ends_le(s[j - 1], e));
            } else {
                assert(r[i] == s[i - 1] && r[j] == s[j - 1]);
            }
        }
        assert(edges =~= t.push(e));
        vstd::seq_lib::to_multiset_build(t, e);
        // the filter of the sorted edges
        let a = s.subrange(0, p);
        let b = s.subrange(p, s.len() as int);
        assert(s =~= a + b);
        assert(r =~= a + seq![e] + b);
        Seq::filter_distributes_over_add(a, b, pred);
        Seq::filter_distributes_over_add(a + seq![e], b, pred);
        Seq::filter_distributes_over_add(a, seq![e], pred);
        reveal_with_fuel(Seq::filter, 2);
        assert(seq![e].drop_last() =~= Seq::<EdgeView>::empty());
        if pred(e) {
            assert(b.filter(pred) =~= Seq::<EdgeView>::empty()) by {
                if b.filter(pred).len() > 0 {
                    b.lemma_filter_pred(pred, 0);
                    let x = b.filter(pred)[0];
                    assert(b.filter(pred).contains(x));
                    b.lemma_filter_contains_rev(pred, x);
                    let q = choose|q: int| 0 <= q < b.len() && b[q] == x;
                    assert(s[p + q] == x);
                    assert(!ends_le(x, e));
                }
            }
            assert(r.filter(pred) =~= s.filter(pred).push(e));
        } else {
            assert(r.filter(pred) =~= s.filter(pred));
        }
        assert(edges.filter(pred) == (if pred(e) {
            t.filter(pred).push(e)
        } else {
            t.filter(pred)
        }));
    }
}

/// Whether edge `a` comes no later than edge `b` by (source, target).
fn ends_le_exec(a: &Edge, b: &Edge) -> (res: bool)
    ensures
        res == ends_le(a@, b@),
{
    a.source < b.source || (a.source == b.source && a.target <= b.target)
}

/// Copies of the edges, sorted by (source, target) ids; edges joining the
/// same pair keep their relative order.
pub fn sort_by_ends(edges: &Vec<Edge>) -> (res: Vec<Edge>)
    ensures
        edges_view(res@) == sorted_by_ends(edges_view(edges@)),
{
    let ghost ev = edges_view(edges@);
    let mut out: Vec<Edge> = Vec::new();
    let mut k: usize = 0;
    assert(ev.take(0) =~= Seq::<EdgeView>::empty());
    while k < edges.len()
        invariant
            ev == edges_view(edges@),
            k <= edges.len(),
            edges_view(out@) == sorted_by_ends(ev.take(k as int)),
        decreases edges.len() - k,
    {
        let e = copy_edge(&edges[k]);
        let ghost s = edges_view(out@);
        let mut p: usize = out.len();
        assert(s.take(p as int) =~= s);
        loop
            invariant
                s == edges_view(out@),
                p <= out.len(),
                insert_pos(s, e@) == insert_pos(s.take(p as int), e@),
            ensures
                insert_pos(s, e@) == p,
            decreases p,
        {
            if p == 0 {
                assert(s.take(0) =~= Seq::<EdgeView>::empty());
                break;
            }
            assert(s.take(p as int).drop_last() =~= s.take(p - 1));
            assert(out@[p - 1]@ == s[p - 1]);
            if ends_le_exec(&out[p - 1], &e) {
                break;
            }
            p = p - 1;
        }
        let ghost before = out@;
        out.insert(p, e);
        proof {
            assert(edges_view(out@) =~= s.insert(p as int, e@));
            assert(ev.take(k + 1).drop_last() =~= ev.take(k as int));
            assert(ev.take(k + 1).last() == e@);
        }
        k += 1;
    }
    assert(ev.take(k as int) =~= ev);
    out
}

} // verus!
