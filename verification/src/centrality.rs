use vstd::prelude::*;
use crate::backend::{brandes_scores, graph_betweenness};
use crate::graph::{CountryGraph, GraphView};

verus! {

/// The number of nodes from which [`calculate_betweenness`] lets the scores
/// be computed on several threads.
pub const PARALLEL_THRESHOLD: usize = 200;

/// Whether `scores` can be the betweenness centrality of the nodes of
/// `graph`, as far as that is known without computing it: every node has a
/// score, and a node without neighbours has the score zero.
pub open spec fn plausible_scores(graph: GraphView, scores: Seq<Option<u64>>) -> bool {
    &&& scores.len() == graph.nodes.len()
    &&& forall|a: int| 0 <= a < scores.len() ==> (#[trigger] scores[a]) is Some
    &&& forall|a: int|
        0 <= a < scores.len() && graph.neighbors(a).len() == 0 ==> (#[trigger] scores[a]) == Some(
            0u64,
        )
}

/// In a graph without edges, scores that are zero for the nodes without
/// neighbours are zero for every node.
pub proof fn lemma_scores_without_edges(graph: GraphView, scores: Seq<Option<u64>>)
    requires
        plausible_scores(graph, scores),
        graph.edges.len() == 0,
    ensures
        forall|a: int| 0 <= a < graph.nodes.len() ==> (#[trigger] scores[a]) == Some(0u64),
{
    assert forall|a: int| 0 <= a < graph.nodes.len() implies (#[trigger] scores[a]) == Some(
        0u64,
    ) by {
        assert(graph.neighbors(a).len() == 0);
    }
}

/// The betweenness centrality of every node, by node index.
///
/// The score of a node is the sum, over the pairs of other nodes, of the
/// share of the shortest paths between the two that run through it. It is
/// computed by Brandes' algorithm, every pair counted once, not normalised.
/// A score is handed out as the binary64 bit pattern of its value, so zero
/// is `0`. Every node has a score; that of a node without neighbours is
/// zero, and so is every score of a graph without edges.
///
/// A graph with fewer than `parallel_threshold` nodes is worked through node
/// by node, and its scores depend on nothing but the number of nodes and the
/// edges in the order in which they were added. A larger graph is shared out
/// among threads, and the last bits of a score may then differ from run to
/// run.
pub fn betweenness_centrality(graph: &CountryGraph, parallel_threshold: usize) -> (scores: Vec<
    Option<u64>,
>)
    requires
        graph.wf(),
    ensures
        plausible_scores(graph@, scores@),
        graph@.edges.len() == 0 ==> forall|a: int|
            0 <= a < scores@.len() ==> (#[trigger] scores@[a]) == Some(0u64),
        graph@.nodes.len() < parallel_threshold ==> scores@ == brandes_scores(
            graph@.nodes.len(),
            graph@.edges,
        ),
{
    let scores = graph_betweenness(graph.raw(), parallel_threshold);
    proof {
        if graph@.edges.len() == 0 {
            lemma_scores_without_edges(graph@, scores@);
        }
    }
    scores
}

/// The betweenness centrality of every node, as
/// [`betweenness_centrality`] gives it with [`PARALLEL_THRESHOLD`].
pub fn calculate_betweenness(graph: &CountryGraph) -> (scores: Vec<Option<u64>>)
    requires
        graph.wf(),
    ensures
        plausible_scores(graph@, scores@),
        graph@.edges.len() == 0 ==> forall|a: int|
            0 <= a < scores@.len() ==> (#[trigger] scores@[a]) == Some(0u64),
        graph@.nodes.len() < PARALLEL_THRESHOLD ==> scores@ == brandes_scores(
            graph@.nodes.len(),
            graph@.edges,
        ),
{
    betweenness_centrality(graph, PARALLEL_THRESHOLD)
}

} // verus!
