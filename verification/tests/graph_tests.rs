use rust_core::{layout_graph, Edge, Graph, GridLayout};

fn edge(source: i32, target: i32, route: Vec<(i64, i64)>) -> Edge {
    Edge { original_source: source, source, target, route, crossing: false }
}

fn levels(graph: &Graph) -> Vec<i32> {
    graph.nodes.iter().map(|n| n.level).collect()
}

#[test]
fn test_add_node_and_edge() {
    let mut graph = Graph::new();

    graph.add_node("Node 1".to_string());
    graph.add_node("Node 2".to_string());
    graph.add_edge(1, 2);

    assert_eq!(graph.nodes.len(), 2);
    assert_eq!(graph.edges.len(), 1);
}

#[test]
fn new_graph_is_empty() {
    let graph = Graph::new();
    assert!(graph.nodes.is_empty());
    assert!(graph.edges.is_empty());
    assert_eq!(graph.next_node_id(), 0);
}

#[test]
fn nodes_get_consecutive_ids() {
    let mut graph = Graph::new();
    graph.add_node("a".to_string());
    let d = graph.add_dummy_node("".to_string());
    graph.add_node("b".to_string());
    assert_eq!(d, 1);
    let ids: Vec<i32> = graph.nodes.iter().map(|n| n.id).collect();
    assert_eq!(ids, vec![0, 1, 2]);
    assert!(!graph.nodes[0].is_dummy);
    assert!(graph.nodes[1].is_dummy);
    assert_eq!(graph.nodes[2].string, "b");
    assert_eq!(graph.nodes[2].level, 0);
    assert_eq!(graph.next_node_id(), 3);
}

#[test]
fn add_edge_keeps_original_source() {
    let mut graph = Graph::new();
    graph.add_edge(4, 7);
    let e = &graph.edges[0];
    assert_eq!((e.original_source, e.source, e.target), (4, 4, 7));
    assert!(e.route.is_empty());
    assert!(!e.crossing);
}

#[test]
fn grid_layout_defaults() {
    let grid = GridLayout::new();
    assert_eq!(grid.layer_spacing, 100);
    assert_eq!(grid.node_spacing, 150);
    assert_eq!(grid.node_width, 50);
    assert_eq!(grid.node_height, 50);
}

fn chain_graph(n: usize, edges: &[(i32, i32)]) -> Graph {
    let mut graph = Graph::new();
    for i in 0..n {
        graph.add_node(format!("n{}", i));
    }
    for &(s, t) in edges {
        graph.add_edge(s, t);
    }
    graph
}

#[test]
fn levels_follow_longest_path() {
    let mut graph = chain_graph(4, &[(0, 1), (1, 2), (0, 2), (2, 3)]);
    graph.compute_node_levels();
    assert_eq!(levels(&graph), vec![0, 1, 2, 3]);
}

#[test]
fn levels_of_sources_are_zero() {
    let mut graph = chain_graph(3, &[(0, 2)]);
    graph.compute_node_levels();
    assert_eq!(levels(&graph), vec![0, 0, 1]);
}

#[test]
fn levels_on_a_cycle() {
    // 0 -> 1 -> 2 -> 1 : nodes 1 and 2 are never reached; 1 is pushed below 0
    let mut graph = chain_graph(3, &[(0, 1), (1, 2), (2, 1)]);
    graph.compute_node_levels();
    assert_eq!(levels(&graph), vec![0, 1, 0]);
}

#[test]
fn levels_with_missing_source() {
    // an edge from an id that is no node keeps its target from being reached
    let mut graph = chain_graph(2, &[(9, 1), (0, 1)]);
    graph.compute_node_levels();
    assert_eq!(levels(&graph), vec![0, 1]);
}

#[test]
fn expand_breaks_long_edges() {
    let mut graph = chain_graph(3, &[(0, 1), (1, 2), (0, 2)]);
    graph.compute_node_levels();
    graph.expand_long_edges();
    assert_eq!(graph.nodes.len(), 4);
    let dummy = &graph.nodes[3];
    assert_eq!((dummy.id, dummy.level, dummy.is_dummy), (3, 1, true));
    assert_eq!(dummy.string, "");
    let es: Vec<(i32, i32, i32)> = graph.edges.iter().map(|e| (e.original_source, e.source, e.target)).collect();
    assert_eq!(es, vec![(0, 0, 1), (1, 1, 2), (0, 0, 3), (0, 3, 2)]);
    assert_eq!(graph.next_node_id(), 4);
}

#[test]
fn expand_keeps_short_and_upward_edges() {
    let mut g = Graph::new();
    g.add_node("a".to_string());
    g.add_node("b".to_string());
    g.nodes[0].level = 3;
    g.edges.push(edge(0, 1, vec![(1, 2)]));
    g.expand_long_edges();
    assert_eq!(g.nodes.len(), 2);
    assert_eq!(g.edges.len(), 1);
    assert_eq!(g.edges[0].route, vec![(1, 2)]);
}

#[test]
fn expand_chain_of_three_levels() {
    let mut g = Graph::new();
    g.add_node("a".to_string());
    g.add_node("b".to_string());
    g.nodes[1].level = 3;
    g.add_edge(0, 1);
    g.expand_long_edges();
    let lv: Vec<(i32, i32)> = g.nodes.iter().map(|n| (n.id, n.level)).collect();
    assert_eq!(lv, vec![(0, 0), (1, 3), (2, 1), (3, 2)]);
    let es: Vec<(i32, i32)> = g.edges.iter().map(|e| (e.source, e.target)).collect();
    assert_eq!(es, vec![(0, 2), (2, 3), (3, 1)]);
    assert!(g.edges.iter().all(|e| e.original_source == 0));
}

#[test]
fn positions_of_a_single_layer() {
    let mut graph = chain_graph(3, &[]);
    graph.compute_horizontal_positions(&GridLayout::new());
    let xy: Vec<(i64, i64)> = graph.nodes.iter().map(|n| (n.x2, n.y2)).collect();
    // x = -150, 0, 150 and y = 25, doubled
    assert_eq!(xy, vec![(-300, 50), (0, 50), (300, 50)]);
}

#[test]
fn positions_follow_barycenters() {
    // 0 and 1 on level 0; 2 is a child of 1, 3 a child of 0
    let mut graph = chain_graph(4, &[(1, 2), (0, 3)]);
    graph.compute_node_levels();
    graph.compute_horizontal_positions(&GridLayout::new());
    let xy: Vec<(i64, i64)> = graph.nodes.iter().map(|n| (n.x2, n.y2)).collect();
    assert_eq!(xy, vec![(-150, 50), (150, 50), (150, 250), (-150, 250)]);
}

#[test]
fn positions_compare_scores_with_ids() {
    // node 2 has no parent and scores its id 2; node 3 sits below node 1 at x = 75
    let mut graph = chain_graph(4, &[(1, 3)]);
    graph.nodes[2].level = 1;
    graph.nodes[3].level = 1;
    graph.compute_horizontal_positions(&GridLayout::new());
    let x: Vec<i64> = graph.nodes.iter().map(|n| n.x2).collect();
    // level 0: nodes 0, 1 at -75, 75; level 1: node 2 (score 2) before node 3 (score 75)
    assert_eq!(x, vec![-150, 150, -150, 150]);
}

#[test]
fn routes_are_straight() {
    let mut graph = chain_graph(2, &[(0, 1)]);
    graph.nodes[0].x2 = 10;
    graph.nodes[0].y2 = 20;
    graph.nodes[1].x2 = -30;
    graph.nodes[1].y2 = 40;
    graph.route_edges_straight();
    assert_eq!(graph.edges[0].route, vec![(10, 20), (-30, 40)]);
}

#[test]
fn crossing_edges_are_flagged() {
    let mut graph = Graph::new();
    graph.edges.push(edge(0, 1, vec![(0, 0), (10, 10)]));
    graph.edges.push(edge(2, 3, vec![(0, 10), (10, 0)]));
    graph.edges.push(edge(4, 5, vec![(20, 0), (30, 0)]));
    graph.crossing_edges();
    let flags: Vec<bool> = graph.edges.iter().map(|e| e.crossing).collect();
    assert_eq!(flags, vec![true, true, false]);
}

#[test]
fn connected_edges_are_not_flagged() {
    let mut graph = Graph::new();
    graph.edges.push(edge(0, 1, vec![(0, 0), (10, 10)]));
    graph.edges.push(edge(1, 3, vec![(0, 10), (10, 0)]));
    graph.crossing_edges();
    assert!(graph.edges.iter().all(|e| !e.crossing));
}

#[test]
fn touching_and_degenerate_edges_are_not_flagged() {
    let mut graph = Graph::new();
    // endpoint of one segment on the other: collinear triple
    graph.edges.push(edge(0, 1, vec![(0, 0), (10, 0)]));
    graph.edges.push(edge(2, 3, vec![(5, 0), (5, 10)]));
    // zero-length route
    graph.edges.push(edge(4, 5, vec![(3, -3), (3, -3)]));
    // no route
    graph.edges.push(edge(6, 7, vec![]));
    graph.crossing_edges();
    assert!(graph.edges.iter().all(|e| !e.crossing));
}

#[test]
fn crossing_flags_stay_set() {
    let mut graph = Graph::new();
    let mut e = edge(0, 1, vec![(0, 0), (1, 0)]);
    e.crossing = true;
    graph.edges.push(e);
    graph.crossing_edges();
    assert!(graph.edges[0].crossing);
}

#[test]
fn crossing_with_large_coordinates() {
    let mut graph = Graph::new();
    let big = i64::MAX;
    graph.edges.push(edge(0, 1, vec![(-big, -big), (big, big)]));
    graph.edges.push(edge(2, 3, vec![(-big, big), (big, -big)]));
    graph.crossing_edges();
    assert!(graph.edges[0].crossing && graph.edges[1].crossing);
}

#[test]
fn full_layout_of_a_small_graph() {
    let mut graph = chain_graph(3, &[(0, 1), (1, 2), (0, 2)]);
    let result = graph.compute_layout_result();
    let nodes: Vec<(i32, String, i64, i64, bool)> = result.nodes_positions.clone();
    assert_eq!(
        nodes,
        vec![
            (0, "n0".to_string(), 0, 50, false),
            (1, "n1".to_string(), -150, 250, false),
            (2, "n2".to_string(), 0, 450, false),
            (3, "".to_string(), 150, 250, true),
        ]
    );
    let edges: Vec<(i32, Vec<(i64, i64)>, bool)> = result.edges_routes.clone();
    assert_eq!(
        edges,
        vec![
            // sorted by (source, target): 0->1, 0->3, 1->2, 3->2
            (0, vec![(0, 50), (-150, 250)], false),
            (0, vec![(0, 50), (150, 250)], false),
            (1, vec![(-150, 250), (0, 450)], false),
            (0, vec![(150, 250), (0, 450)], false),
        ]
    );
}

#[test]
fn edge_routes_are_sorted_by_source_and_target() {
    let labels: Vec<String> = ["a", "b", "c"].iter().map(|s| s.to_string()).collect();
    let result = layout_graph(&labels, &vec![(1, 2), (0, 2), (0, 1)]).expect("layout");
    let sources: Vec<i32> = result.edges_routes.iter().map(|r| r.0).collect();
    // 0->1, 0->3 (dummy), 1->2, 3->2: the chain of 0->2 keeps source 0
    assert_eq!(sources, vec![0, 0, 1, 0]);
    assert_eq!(result.edges_routes[0].1[1], (-150, 250));
    assert_eq!(result.edges_routes[1].1[1], (150, 250));
    assert_eq!(result.edges_routes[2].1, vec![(-150, 250), (0, 450)]);
}

#[test]
fn parallel_edges_keep_their_order() {
    let labels: Vec<String> = ["a", "b"].iter().map(|s| s.to_string()).collect();
    let result = layout_graph(&labels, &vec![(1, 0), (0, 1), (1, 0)]).expect("layout");
    // the cycle keeps both nodes on level 0; 0->1 sorts before the two 1->0
    let sources: Vec<i32> = result.edges_routes.iter().map(|r| r.0).collect();
    assert_eq!(sources, vec![0, 1, 1]);
}

#[test]
fn layout_graph_from_lists() {
    let labels = vec!["a".to_string(), "b".to_string()];
    let result = layout_graph(&labels, &vec![(0, 1)]).expect("layout");
    assert_eq!(result.nodes_positions.len(), 2);
    assert_eq!(result.nodes_positions[1], (1, "b".to_string(), 0, 250, false));
    assert_eq!(result.edges_routes, vec![(0, vec![(0, 50), (0, 250)], false)]);
}

#[test]
fn layout_graph_refuses_missing_nodes() {
    let labels = vec!["a".to_string()];
    assert!(layout_graph(&labels, &vec![(0, 1)]).is_none());
    assert!(layout_graph(&labels, &vec![(5, 0)]).is_none());
}

#[test]
fn layout_graph_orders_children_under_parents() {
    // d is a child of a and c a child of b: the barycenters put d to the left
    let labels: Vec<String> = ["a", "b", "c", "d"].iter().map(|s| s.to_string()).collect();
    let result = layout_graph(&labels, &vec![(0, 3), (1, 2)]).expect("layout");
    let x: Vec<i64> = result.nodes_positions.iter().map(|p| p.2).collect();
    assert_eq!(x, vec![-150, 150, 150, -150]);
    let flags: Vec<bool> = result.edges_routes.iter().map(|r| r.2).collect();
    assert_eq!(flags, vec![false, false]);
}

#[test]
fn flagging_crossings_twice_changes_nothing() {
    let mut graph = Graph::new();
    graph.edges.push(edge(0, 1, vec![(0, 0), (10, 10)]));
    graph.edges.push(edge(2, 3, vec![(0, 10), (10, 0)]));
    graph.edges.push(edge(4, 5, vec![(20, 0), (30, 0)]));
    graph.crossing_edges();
    let once: Vec<bool> = graph.edges.iter().map(|e| e.crossing).collect();
    graph.crossing_edges();
    let twice: Vec<bool> = graph.edges.iter().map(|e| e.crossing).collect();
    assert_eq!(once, twice);
}

#[test]
fn expanded_edges_descend_one_level() {
    let mut graph = chain_graph(4, &[(0, 3), (0, 1), (1, 2), (2, 3)]);
    graph.compute_node_levels();
    graph.expand_long_edges();
    let level = |id: i32| graph.nodes.iter().find(|n| n.id == id).unwrap().level;
    for e in &graph.edges {
        assert_eq!(level(e.target) - level(e.source), 1);
    }
    // the edge 0 -> 3 became three unit edges through two dummies
    assert_eq!(graph.edges.len(), 6);
    assert_eq!(graph.nodes.iter().filter(|n| n.is_dummy).count(), 2);
}

#[test]
fn cycle_without_source_stays_on_level_zero() {
    let mut graph = chain_graph(4, &[(0, 3), (0, 1), (1, 2), (2, 3), (3, 0)]);
    graph.compute_node_levels();
    assert!(graph.nodes.iter().all(|n| n.level == 0));
    graph.expand_long_edges();
    assert_eq!(graph.edges.len(), 5);
    assert_eq!(graph.nodes.len(), 4);
}

#[test]
fn acyclic_layout_edges_span_one_layer() {
    let mut graph = chain_graph(5, &[(0, 4), (0, 1), (1, 2), (2, 3), (3, 4), (1, 4)]);
    let result = graph.compute_layout_result();
    for (_, route, _) in &result.edges_routes {
        // doubled layer spacing is 200
        assert_eq!(route[1].1 - route[0].1, 200);
    }
    for e in &graph.edges {
        let level = |id: i32| graph.nodes.iter().find(|n| n.id == id).unwrap().level;
        assert_eq!(level(e.target) - level(e.source), 1);
    }
}

#[test]
fn layer_slots_are_distinct_and_centred() {
    let mut graph = chain_graph(4, &[]);
    graph.compute_horizontal_positions(&GridLayout::new());
    let mut x: Vec<i64> = graph.nodes.iter().map(|n| n.x2).collect();
    x.sort();
    assert_eq!(x, vec![-450, -150, 150, 450]);
    assert!(graph.nodes.iter().all(|n| n.y2 == 50));
}

#[test]
fn accessors_read_the_fields() {
    let graph = chain_graph(2, &[(0, 1)]);
    assert_eq!(graph.nodes().len(), 2);
    assert_eq!(graph.edges()[0].target, 1);
}

#[test]
fn levels_do_not_depend_on_old_levels() {
    let mut a = chain_graph(3, &[(0, 1), (1, 2)]);
    let mut b = chain_graph(3, &[(0, 1), (1, 2)]);
    b.nodes[0].level = 7;
    b.nodes[2].level = -3;
    a.compute_node_levels();
    b.compute_node_levels();
    assert_eq!(levels(&a), levels(&b));
    a.compute_node_levels();
    assert_eq!(levels(&a), vec![0, 1, 2]);
}

#[test]
fn expanding_twice_adds_nothing() {
    let mut graph = chain_graph(3, &[(0, 2), (0, 1), (1, 2)]);
    graph.compute_node_levels();
    graph.expand_long_edges();
    let nodes = graph.nodes.len();
    let edges: Vec<(i32, i32)> = graph.edges.iter().map(|e| (e.source, e.target)).collect();
    graph.expand_long_edges();
    assert_eq!(graph.nodes.len(), nodes);
    let again: Vec<(i32, i32)> = graph.edges.iter().map(|e| (e.source, e.target)).collect();
    assert_eq!(edges, again);
}

#[test]
fn placing_twice_changes_nothing() {
    let mut graph = chain_graph(4, &[(0, 2), (1, 2), (1, 3)]);
    graph.compute_node_levels();
    let grid = GridLayout::new();
    graph.compute_horizontal_positions(&grid);
    let once: Vec<(i64, i64)> = graph.nodes.iter().map(|n| (n.x2, n.y2)).collect();
    graph.nodes[3].x2 = 999;
    graph.compute_horizontal_positions(&grid);
    let twice: Vec<(i64, i64)> = graph.nodes.iter().map(|n| (n.x2, n.y2)).collect();
    assert_eq!(once, twice);
}

#[test]
fn built_graph_ids_are_positions() {
    let mut graph = chain_graph(3, &[(0, 2), (0, 1), (1, 2)]);
    graph.compute_layout_result();
    for (i, n) in graph.nodes.iter().enumerate() {
        assert_eq!(n.id, i as i32);
    }
    assert_eq!(graph.next_node_id(), graph.nodes.len() as i32);
}

#[test]
fn laying_out_twice_gives_the_same_result() {
    let mut graph = chain_graph(5, &[(0, 4), (0, 1), (1, 2), (2, 3), (3, 4), (1, 4), (2, 0)]);
    // the last edge closes a cycle; drop it for an acyclic graph
    graph.edges.pop();
    let first = graph.compute_layout_result();
    let nodes = graph.nodes.len();
    let second = graph.compute_layout_result();
    assert_eq!(graph.nodes.len(), nodes);
    assert_eq!(first.nodes_positions, second.nodes_positions);
    assert_eq!(first.edges_routes, second.edges_routes);
}
