use vstd::prelude::*;

pub mod expand;
pub mod laws;
pub mod layout;
pub mod levels;
pub mod positions;
pub mod relayout;
pub mod routing;
pub mod sorting;

use crate::edge::{Edge, EdgeView};
use crate::node::{Node, NodeView};

verus! {

/// A directed graph together with the layout state of its nodes and edges.
#[derive(Debug)]
pub struct Graph {
    pub nodes: Vec<Node>,
    pub edges: Vec<Edge>,
    next_node_id: i32,
}

/// The mathematical content of a [`Graph`].
pub struct GraphView {
    pub nodes: Seq<NodeView>,
    pub edges: Seq<EdgeView>,
    pub next_id: int,
}

impl View for Graph {
    type V = GraphView;

    closed spec fn view(&self) -> GraphView {
        GraphView {
            nodes: self.nodes@.map_values(|n: Node| n@),
            edges: self.edges@.map_values(|e: Edge| e@),
            next_id: self.next_node_id as int,
        }
    }
}

/// No two nodes share an id.
pub open spec fn ids_distinct(nodes: Seq<NodeView>) -> bool {
    forall|i: int, j: int|
        0 <= i < nodes.len() && 0 <= j < nodes.len() && i != j ==> nodes[i].id != nodes[j].id
}

/// Some node carries the id.
pub open spec fn has_id(nodes: Seq<NodeView>, id: i32) -> bool {
    exists|i: int| 0 <= i < nodes.len() && nodes[i].id == id
}

/// The position of the first node that carries the id.
#[verifier::opaque]
pub open spec fn index_of(nodes: Seq<NodeView>, id: i32) -> int {
    choose|i: int|
        0 <= i < nodes.len() && nodes[i].id == id && forall|j: int| 0 <= j < i ==> nodes[j].id != id
}

/// Every edge starts and ends at a node of the graph.
pub open spec fn endpoints_present(nodes: Seq<NodeView>, edges: Seq<EdgeView>) -> bool {
    forall|k: int|
        0 <= k < edges.len() ==> has_id(nodes, #[trigger] edges[k].source) && has_id(
            nodes,
            edges[k].target,
        )
}

impl GraphView {
    /// The invariant that the graph's own operations keep: ids are distinct
    /// and all of them were handed out before the next id.
    pub open spec fn well_formed(self) -> bool {
        &&& 0 <= self.next_id <= i32::MAX
        &&& ids_distinct(self.nodes)
        &&& forall|i: int| 0 <= i < self.nodes.len() ==> 0 <= #[trigger] self.nodes[i].id < self.next_id
    }
}

impl GraphView {
    /// Each node's id is its position and the next id is the node count:
    /// what building a graph with the graph's own operations gives.
    pub open spec fn ids_are_positions(self) -> bool {
        &&& self.next_id == self.nodes.len()
        &&& forall|i: int| 0 <= i < self.nodes.len() ==> #[trigger] self.nodes[i].id == i
    }
}

/// Ids equal to positions are distinct and below the next id.
pub proof fn lemma_positions_well_formed(g: GraphView)
    requires
        g.ids_are_positions(),
        g.next_id <= i32::MAX,
    ensures
        g.well_formed(),
{
}

/// The node that `add_node` or `add_dummy_node` appends.
pub open spec fn fresh_node(id: int, label: Seq<char>, is_dummy: bool) -> NodeView {
    NodeView { id: id as i32, level: 0, label, x2: 0, y2: 0, is_dummy }
}

/// The edge that `add_edge` appends.
pub open spec fn fresh_edge(source: i32, target: i32) -> EdgeView {
    EdgeView {
        original_source: source,
        source,
        target,
        route: Seq::empty(),
        crossing: false,
    }
}

/// The index of the first node with the id, if there is one.
pub fn find_node(nodes: &Vec<Node>, id: i32) -> (res: Option<usize>)
    ensures
        match res {
            Some(i) => {
                let s = nodes@.map_values(|n: Node| n@);
                &&& i < nodes.len()
                &&& has_id(s, id)
                &&& i == index_of(s, id)
            },
            None => !has_id(nodes@.map_values(|n: Node| n@), id),
        },
{
    let ghost s = nodes@.map_values(|n: Node| n@);
    let mut i: usize = 0;
    while i < nodes.len()
        invariant
            i <= nodes.len(),
            s == nodes@.map_values(|n: Node| n@),
            forall|j: int| 0 <= j < i ==> s[j].id != id,
        decreases nodes.len() - i,
    {
        if nodes[i].id == id {
            proof {
                lemma_index_of(s, id, i as int);
            }
            return Some(i);
        }
        i += 1;
    }
    None
}

/// `index_of` is the first position that carries the id.
pub proof fn lemma_index_of(nodes: Seq<NodeView>, id: i32, i: int)
    requires
        0 <= i < nodes.len(),
        nodes[i].id == id,
        forall|j: int| 0 <= j < i ==> nodes[j].id != id,
    ensures
        index_of(nodes, id) == i,
        has_id(nodes, id),
{
    reveal(index_of);
    let k = index_of(nodes, id);
    assert(0 <= k < nodes.len() && nodes[k].id == id && forall|j: int| 0 <= j < k ==> nodes[j].id != id);
    if k < i {
    } else if k > i {
        assert(nodes[i].id != id);
    }
}

/// When some node carries the id, `index_of` is the first such position.
pub proof fn lemma_index_of_exists(nodes: Seq<NodeView>, id: i32)
    requires
        has_id(nodes, id),
    ensures
        0 <= index_of(nodes, id) < nodes.len(),
        nodes[index_of(nodes, id)].id == id,
        forall|j: int| 0 <= j < index_of(nodes, id) ==> nodes[j].id != id,
{
    let i = choose|i: int| 0 <= i < nodes.len() && nodes[i].id == id;
    lemma_first_below(nodes, id, i);
}

proof fn lemma_first_below(nodes: Seq<NodeView>, id: i32, i: int)
    requires
        0 <= i < nodes.len(),
        nodes[i].id == id,
    ensures
        0 <= index_of(nodes, id) < nodes.len(),
        nodes[index_of(nodes, id)].id == id,
        forall|j: int| 0 <= j < index_of(nodes, id) ==> nodes[j].id != id,
    decreases i,
{
    if exists|j: int| 0 <= j < i && nodes[j].id == id {
        let j = choose|j: int| 0 <= j < i && nodes[j].id == id;
        lemma_first_below(nodes, id, j);
    } else {
        lemma_index_of(nodes, id, i);
    }
}

/// Node sequences with the same ids agree on which ids they carry and where.
pub proof fn lemma_same_ids(a: Seq<NodeView>, b: Seq<NodeView>, id: i32)
    requires
        a.len() == b.len(),
        forall|i: int| 0 <= i < a.len() ==> #[trigger] a[i].id == b[i].id,
    ensures
        has_id(a, id) == has_id(b, id),
        has_id(a, id) ==> index_of(a, id) == index_of(b, id),
{
    if has_id(a, id) {
        let i = choose|i: int| 0 <= i < a.len() && a[i].id == id;
        assert(b[i].id == id);
        lemma_index_of_exists(a, id);
        let k = index_of(a, id);
        assert forall|j: int| 0 <= j < k implies b[j].id != id by {
            assert(a[j].id != id);
        }
        lemma_index_of(b, id, k);
    }
    if has_id(b, id) {
        let i = choose|i: int| 0 <= i < b.len() && b[i].id == id;
        assert(a[i].id == id);
    }
}

/// With distinct ids, `index_of` is the only position that carries the id.
pub proof fn lemma_index_of_distinct(nodes: Seq<NodeView>, i: int)
    requires
        ids_distinct(nodes),
        0 <= i < nodes.len(),
    ensures
        index_of(nodes, nodes[i].id) == i,
{
    lemma_index_of(nodes, nodes[i].id, i);
}

impl Graph {
    /// The nodes, as the view describes them. (Outside this module Verus
    /// does not let verified code read the fields of `Graph`, whose id
    /// counter is private; this is how verified callers read the nodes.)
    pub fn nodes(&self) -> (r: &Vec<Node>)
        ensures
            r@.map_values(|n: Node| n@) == self@.nodes,
            r@.len() == self@.nodes.len(),
            forall|i: int| 0 <= i < r@.len() ==> #[trigger] r@[i]@ == self@.nodes[i],
    {
        &self.nodes
    }

    /// The edges, as the view describes them.
    pub fn edges(&self) -> (r: &Vec<Edge>)
        ensures
            r@.map_values(|e: Edge| e@) == self@.edges,
            r@.len() == self@.edges.len(),
            forall|k: int| 0 <= k < r@.len() ==> #[trigger] r@[k]@ == self@.edges[k],
    {
        &self.edges
    }

    /// An empty graph.
    pub fn new() -> (g: Self)
        ensures
            g@.nodes == Seq::<NodeView>::empty(),
            g@.edges == Seq::<EdgeView>::empty(),
            g@.next_id == 0,
            g@.well_formed(),
            g@.ids_are_positions(),
    {
        Graph { nodes: Vec::new(), edges: Vec::new(), next_node_id: 0 }
    }

    /// The id that the next added node receives.
    pub fn next_node_id(&self) -> (id: i32)
        ensures
            id == self@.next_id,
    {
        self.next_node_id
    }

    /// Appends a real node labelled `string`, with the next free id.
    pub fn add_node(&mut self, string: String)
        requires
            old(self)@.next_id < i32::MAX,
        ensures
            final(self)@.nodes == old(self)@.nodes.push(
                fresh_node(old(self)@.next_id, string@, false),
            ),
            final(self)@.edges == old(self)@.edges,
            final(self)@.next_id == old(self)@.next_id + 1,
            old(self)@.well_formed() ==> final(self)@.well_formed(),
            old(self)@.ids_are_positions() ==> final(self)@.ids_are_positions(),
    {
        let id = self.next_node_id;
        self.next_node_id = self.next_node_id + 1;
        let node = Node { id, level: 0, string, x2: 0, y2: 0, is_dummy: false };
        self.nodes.push(node);
        proof {
            assert(self@.nodes =~= old(self)@.nodes.push(fresh_node(old(self)@.next_id, string@, false)));
            assert(self@.edges =~= old(self)@.edges);
        }
    }

    /// Appends a dummy node labelled `string`, with the next free id, and
    /// returns that id.
    pub fn add_dummy_node(&mut self, string: String) -> (id: i32)
        requires
            old(self)@.next_id < i32::MAX,
        ensures
            id == old(self)@.next_id,
            final(self)@.nodes == old(self)@.nodes.push(
                fresh_node(old(self)@.next_id, string@, true),
            ),
            final(self)@.edges == old(self)@.edges,
            final(self)@.next_id == old(self)@.next_id + 1,
            old(self)@.well_formed() ==> final(self)@.well_formed(),
            old(self)@.ids_are_positions() ==> final(self)@.ids_are_positions(),
    {
        let id = self.next_node_id;
        self.next_node_id = self.next_node_id + 1;
        let node = Node { id, level: 0, string, x2: 0, y2: 0, is_dummy: true };
        self.nodes.push(node);
        proof {
            assert(self@.nodes =~= old(self)@.nodes.push(fresh_node(old(self)@.next_id, string@, true)));
            assert(self@.edges =~= old(self)@.edges);
        }
        id
    }

    /// Appends the edge `source -> target`; the endpoints are not checked.
    pub fn add_edge(&mut self, source: i32, target: i32)
        ensures
            final(self)@.edges == old(self)@.edges.push(fresh_edge(source, target)),
            final(self)@.nodes == old(self)@.nodes,
            final(self)@.next_id == old(self)@.next_id,
            old(self)@.ids_are_positions() ==> final(self)@.ids_are_positions(),
    {
        let edge = Edge { original_source: source, source, target, route: Vec::new(), crossing: false };
        self.edges.push(edge);
        proof {
            assert(self@.edges =~= old(self)@.edges.push(fresh_edge(source, target)));
            assert(self@.nodes =~= old(self)@.nodes);
        }
    }
}

} // verus!
