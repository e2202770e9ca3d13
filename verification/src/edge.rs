use vstd::prelude::*;

verus! {

/// A directed edge of the layout graph.
///
/// `original_source` remembers the source of the edge as the user gave it,
/// also after a long edge has been split into a chain through dummy nodes.
/// `route` holds the doubled coordinates of the points the edge is drawn
/// through.
#[derive(Debug, Clone)]
pub struct Edge {
    pub original_source: i32,
    pub source: i32,
    pub target: i32,
    pub route: Vec<(i64, i64)>,
    pub crossing: bool,
}

/// The mathematical content of an [`Edge`].
pub struct EdgeView {
    pub original_source: i32,
    pub source: i32,
    pub target: i32,
    pub route: Seq<(i64, i64)>,
    pub crossing: bool,
}

impl View for Edge {
    type V = EdgeView;

    open spec fn view(&self) -> EdgeView {
        EdgeView {
            original_source: self.original_source,
            source: self.source,
            target: self.target,
            route: self.route@,
            crossing: self.crossing,
        }
    }
}

} // verus!
