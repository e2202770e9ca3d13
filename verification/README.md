# rust_core

Layered layout of directed graphs, verified with Verus.

A graph is laid out in five steps (`Graph::compute_layout_result`):

1. `compute_node_levels` gives every node its level in the longest-path
   layering, found by a topological traversal from the nodes without
   incoming edges.
2. `expand_long_edges` breaks every edge that descends more than one level
   into a chain of unit edges through dummy nodes.
3. `compute_horizontal_positions` orders each layer by the barycenter of the
   nodes' parents and spreads it over evenly spaced slots centred on x = 0.
4. `route_edges_straight` draws each edge as a straight segment.
5. `crossing_edges` flags the edges whose segments properly cross.

The result lists the nodes in order and the edge routes sorted by the
(source, target) ids of the routed edges.

All coordinates are exact integers holding twice the geometric value, so
that the half-unit offsets of centred layers need no rounding.

Layout:

- `src/` the verified library; `src/graph/laws.rs` and
  `src/graph/relayout.rs` state the properties that hold across the steps.
- `app/` the Python module (pyo3) that reads `graphs/graph.json`, calls
  `layout_graph` and halves the coordinates for Python.
- `tests/` tests on concrete graphs.
