use vstd::prelude::*;

verus! {

/// A node of the layout graph.
///
/// `x2` and `y2` hold twice the node's coordinates.
#[derive(Debug, Clone)]
pub struct Node {
    pub id: i32,
    pub level: i32,
    pub string: String,
    pub x2: i64,
    pub y2: i64,
    /// Set for nodes that were inserted to break a long edge into unit steps.
    pub is_dummy: bool,
}

/// The mathematical content of a [`Node`].
pub struct NodeView {
    pub id: i32,
    pub level: i32,
    pub label: Seq<char>,
    pub x2: i64,
    pub y2: i64,
    pub is_dummy: bool,
}

impl View for Node {
    type V = NodeView;

    open spec fn view(&self) -> NodeView {
        NodeView {
            id: self.id,
            level: self.level,
            label: self.string@,
            x2: self.x2,
            y2: self.y2,
            is_dummy: self.is_dummy,
        }
    }
}

} // verus!
