use vstd::prelude::*;

verus! {

/// Spacing parameters of the layout grid, in layout units.
#[derive(Debug, Clone)]
pub struct GridLayout {
    pub layer_spacing: u16,
    pub node_spacing: u16,
    pub node_width: u16,
    pub node_height: u16,
}

impl GridLayout {
    /// The grid every layout is computed on.
    pub fn new() -> (grid: Self)
        ensures
            grid.layer_spacing == 100,
            grid.node_spacing == 150,
            grid.node_width == 50,
            grid.node_height == 50,
    {
        GridLayout { layer_spacing: 100, node_spacing: 150, node_width: 50, node_height: 50 }
    }
}

} // verus!
