//! The dialogue graph: a directed graph of the `petgraph` crate whose nodes
//! hold dialogues and whose edges carry nothing. Its contents are named by
//! [`graph_nodes`] and [`graph_edges`].

use vstd::prelude::*;

use petgraph::graph::{DiGraph, Graph, NodeIndex};
use petgraph::Directed;

use crate::dialogue::Dialogue;

verus! {

#[verifier::external_type_specification]
#[verifier::external_body]
#[verifier::reject_recursive_types(N)]
#[verifier::reject_recursive_types(E)]
#[verifier::reject_recursive_types(Ty)]
#[verifier::reject_recursive_types(Ix)]
pub struct ExGraph<N, E, Ty, Ix>(Graph<N, E, Ty, Ix>);

#[verifier::external_type_specification]
#[verifier::external_body]
pub struct ExDirected(Directed);

/// The node weights of a dialogue graph, in node-index order.
pub uninterp spec fn graph_nodes(g: DiGraph<Box<Dialogue>, ()>) -> Seq<Dialogue>;

/// The edges of a dialogue graph as (source, target) node indices, in
/// edge-index order.
pub uninterp spec fn graph_edges(g: DiGraph<Box<Dialogue>, ()>) -> Seq<(int, int)>;

/// `DiGraph::new`: a graph with no node and no edge.
#[verifier::external_body]
pub(crate) fn new_graph() -> (g: DiGraph<Box<Dialogue>, ()>)
    ensures
        graph_nodes(g) == Seq::<Dialogue>::empty(),
        graph_edges(g) == Seq::<(int, int)>::empty(),
{
    DiGraph::new()
}

/// `Graph::add_node` on the default `u32` index type, which panics when the
/// graph already holds `u32::MAX` nodes: appends the weight as a new node
/// and returns its index (`NodeIndex::index`), the former node count.
#[verifier::external_body]
pub(crate) fn add_node(g: &mut DiGraph<Box<Dialogue>, ()>, weight: Box<Dialogue>) -> (r: usize)
    requires
        graph_nodes(*old(g)).len() < u32::MAX,
    ensures
        graph_nodes(*final(g)) == graph_nodes(*old(g)).push(*weight),
        graph_edges(*final(g)) == graph_edges(*old(g)),
        r == graph_nodes(*old(g)).len(),
{
    g.add_node(weight).index()
}

/// `Graph::add_edge` on the default `u32` index type, with the node indices
/// made by `NodeIndex::new`: appends an edge from `a` to `b`. It panics when
/// a node does not exist or the graph already holds `u32::MAX` edges.
#[verifier::external_body]
pub(crate) fn add_edge(g: &mut DiGraph<Box<Dialogue>, ()>, a: usize, b: usize)
    requires
        a < graph_nodes(*old(g)).len(),
        b < graph_nodes(*old(g)).len(),
        graph_edges(*old(g)).len() < u32::MAX,
    ensures
        graph_nodes(*final(g)) == graph_nodes(*old(g)),
        graph_edges(*final(g)) == graph_edges(*old(g)).push((a as int, b as int)),
{
    g.add_edge(NodeIndex::new(a), NodeIndex::new(b), ());
}

/// `Graph::node_count`: the number of nodes.
#[verifier::external_body]
pub(crate) fn node_count(g: &DiGraph<Box<Dialogue>, ()>) -> (r: usize)
    ensures
        r == graph_nodes(*g).len(),
{
    g.node_count()
}

/// `Graph::edge_count`: the number of edges.
#[verifier::external_body]
pub(crate) fn edge_count(g: &DiGraph<Box<Dialogue>, ()>) -> (r: usize)
    ensures
        r == graph_edges(*g).len(),
{
    g.edge_count()
}

} // verus!
