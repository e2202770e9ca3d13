use vstd::prelude::*;

verus! {

/// What a layout hands back: for each node, in order, its id, label,
/// doubled coordinates and dummy flag; for each edge its original source,
/// its route (doubled coordinates) and whether it crosses another edge,
/// sorted by the (source, target) ids of the routed edges.
#[derive(Debug, Clone)]
pub struct LayoutResult {
    pub nodes_positions: Vec<(i32, String, i64, i64, bool)>,
    pub edges_routes: Vec<(i32, Vec<(i64, i64)>, bool)>,
}

/// The mathematical content of a [`LayoutResult`].
pub struct LayoutView {
    pub nodes_positions: Seq<(i32, Seq<char>, i64, i64, bool)>,
    pub edges_routes: Seq<(i32, Seq<(i64, i64)>, bool)>,
}

impl View for LayoutResult {
    type V = LayoutView;

    open spec fn view(&self) -> LayoutView {
        LayoutView {
            nodes_positions: self.nodes_positions@.map_values(
                |p: (i32, String, i64, i64, bool)| (p.0, p.1@, p.2, p.3, p.4),
            ),
            edges_routes: self.edges_routes@.map_values(
                |r: (i32, Vec<(i64, i64)>, bool)| (r.0, r.1@, r.2),
            ),
        }
    }
}

} // verus!
