use vstd::prelude::*;
use crate::backend::{dot_rendering, graph_dot};
use crate::graph::CountryGraph;

verus! {

/// The graph as text in the DOT language: one line for every node with the
/// country in it, and one for every edge, without a label.
pub fn visualize_graph(graph: &CountryGraph) -> (text: String)
    requires
        graph.wf(),
    ensures
        text@ == dot_rendering(graph@.nodes, graph@.edges),
{
    graph_dot(graph.raw())
}

} // verus!
