//! Layered ("Sugiyama style") layout of directed graphs.
//!
//! Coordinates are kept exactly: every position is stored doubled, as an
//! integer, so that the half-unit offsets produced by centring a layer are
//! represented without rounding.

pub mod edge;
pub mod graph;
pub mod grid_layout;
pub mod layout_result;
pub mod node;

pub use edge::{Edge, EdgeView};
pub use graph::layout::layout_graph;
pub use graph::{Graph, GraphView};
pub use grid_layout::GridLayout;
pub use layout_result::{LayoutResult, LayoutView};
pub use node::{Node, NodeView};
