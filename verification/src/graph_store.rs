//! Trusted interface to petgraph's directed graph.
//!
//! The builder keeps the airport graph itself in a petgraph `DiGraph` whose
//! node weights are airport ids and whose edges record one observed flight
//! each. petgraph stores nodes and edges in insertion order in plain vectors,
//! so the contracts here speak of two sequences: the node weights in index
//! order, and the edge endpoint pairs in insertion order.

use vstd::prelude::*;
use petgraph::graph::DiGraph;
use petgraph::graph::NodeIndex;

verus! {

#[verifier::external_type_specification]
#[verifier::external_body]
#[verifier::reject_recursive_types(N)]
#[verifier::reject_recursive_types(E)]
#[verifier::reject_recursive_types(Ty)]
#[verifier::reject_recursive_types(Ix)]
pub struct ExGraph<N, E, Ty, Ix>(petgraph::graph::Graph<N, E, Ty, Ix>);

#[verifier::external_type_specification]
#[verifier::external_body]
pub struct ExDirected(petgraph::Directed);

/// The node weights of the graph, in node-index order.
pub uninterp spec fn graph_nodes(g: DiGraph<u32, ()>) -> Seq<u32>;

/// The edges of the graph as (source index, target index) pairs, in insertion
/// order.
pub uninterp spec fn graph_edges(g: DiGraph<u32, ()>) -> Seq<(usize, usize)>;

/// Relies on petgraph's Graph::new: it creates a graph with no nodes and no
/// edges.
#[verifier::external_body]
pub(crate) fn graph_new() -> (g: DiGraph<u32, ()>)
    ensures
        graph_nodes(g) == Seq::<u32>::empty(),
        graph_edges(g) == Seq::<(usize, usize)>::empty(),
{
    DiGraph::new()
}

/// Relies on petgraph's Graph::add_node: it appends one node holding the
/// given weight and returns its index, the old node count. It panics only at
/// the index type's limit, which the precondition rules out.
#[verifier::external_body]
pub(crate) fn graph_add_node(g: &mut DiGraph<u32, ()>, id: u32) -> (i: usize)
    requires
        graph_nodes(*old(g)).len() < 0xFFFF_FFFF,
    ensures
        graph_nodes(*final(g)) == graph_nodes(*old(g)).push(id),
        graph_edges(*final(g)) == graph_edges(*old(g)),
        i == graph_nodes(*old(g)).len(),
{
    g.add_node(id).index()
}

/// Relies on petgraph's Graph::add_edge: it appends one directed edge between
/// two existing nodes and touches nothing else. It panics on an out-of-range
/// node index or at the index type's edge limit, which the preconditions rule
/// out.
#[verifier::external_body]
pub(crate) fn graph_add_edge(g: &mut DiGraph<u32, ()>, a: usize, b: usize)
    requires
        a < graph_nodes(*old(g)).len(),
        b < graph_nodes(*old(g)).len(),
        graph_edges(*old(g)).len() < 0xFFFF_FFFF,
    ensures
        graph_nodes(*final(g)) == graph_nodes(*old(g)),
        graph_edges(*final(g)) == graph_edges(*old(g)).push((a, b)),
{
    g.add_edge(NodeIndex::new(a), NodeIndex::new(b), ());
}

/// Relies on petgraph's Graph::node_count: it returns the number of nodes.
#[verifier::external_body]
pub(crate) fn graph_node_count(g: &DiGraph<u32, ()>) -> (n: usize)
    ensures
        n == graph_nodes(*g).len(),
{
    g.node_count()
}

/// Relies on petgraph's Graph::edge_count: it returns the number of edges.
#[verifier::external_body]
pub(crate) fn graph_edge_count(g: &DiGraph<u32, ()>) -> (n: usize)
    ensures
        n == graph_edges(*g).len(),
{
    g.edge_count()
}

/// Relies on petgraph's Graph::node_weight: it returns the weight stored at
/// an existing node index.
#[verifier::external_body]
pub(crate) fn graph_node_weight(g: &DiGraph<u32, ()>, i: usize) -> (w: u32)
    requires
        i < graph_nodes(*g).len(),
    ensures
        w == graph_nodes(*g)[i as int],
{
    *g.node_weight(NodeIndex::new(i)).unwrap()
}

} // verus!
