use vstd::prelude::*;
use crate::backend::{incoming, neighbors, outgoing};
use crate::graph::{as_ints, simple_edges, CountryGraph, GraphError, GraphView};

verus! {

/// Whether an edge was given with `a` as its first end.
pub open spec fn starts_at(a: int) -> spec_fn((int, int)) -> bool {
    |edge: (int, int)| edge.0 == a
}

/// Whether an edge was given with `a` as its second end.
pub open spec fn ends_at(a: int) -> spec_fn((int, int)) -> bool {
    |edge: (int, int)| edge.1 == a
}

/// The degree of `a`: the number of edge ends at `a`. Each of several edges
/// between two nodes counts.
pub open spec fn degree(edges: Seq<(int, int)>, a: int) -> nat {
    edges.filter(starts_at(a)).len() + edges.filter(ends_at(a)).len()
}

/// The sum of the degrees of the first `n` nodes.
pub open spec fn degree_sum(edges: Seq<(int, int)>, n: nat) -> nat
    decreases n,
{
    if n == 0 {
        0
    } else {
        degree_sum(edges, (n - 1) as nat) + degree(edges, n - 1)
    }
}

/// The sum of `counts`.
pub open spec fn total(counts: Seq<usize>) -> nat
    decreases counts.len(),
{
    if counts.len() == 0 {
        0
    } else {
        total(counts.drop_last()) + counts.last() as nat
    }
}

/// What one more edge adds to the degree of `a`: one for each of its ends
/// that is `a`.
pub proof fn lemma_degree_push(edges: Seq<(int, int)>, edge: (int, int), a: int)
    ensures
        degree(edges.push(edge), a) == degree(edges, a) + (if edge.0 == a {
            1nat
        } else {
            0nat
        }) + (if edge.1 == a {
            1nat
        } else {
            0nat
        }),
{
    edges.lemma_filter_len_push(starts_at(a), edge);
    edges.lemma_filter_len_push(ends_at(a), edge);
}

/// What one more edge adds to the sum of the degrees of the first `n` nodes:
/// one for each of its ends that is among them.
proof fn lemma_degree_sum_push(edges: Seq<(int, int)>, edge: (int, int), n: nat)
    ensures
        degree_sum(edges.push(edge), n) == degree_sum(edges, n) + (if 0 <= edge.0 < n {
            1nat
        } else {
            0nat
        }) + (if 0 <= edge.1 < n {
            1nat
        } else {
            0nat
        }),
    decreases n,
{
    if n > 0 {
        lemma_degree_sum_push(edges, edge, (n - 1) as nat);
        lemma_degree_push(edges, edge, n - 1);
    }
}

/// The degrees of a graph without edges are all zero.
proof fn lemma_degree_sum_empty(n: nat)
    ensures
        degree_sum(Seq::<(int, int)>::empty(), n) == 0,
    decreases n,
{
    if n > 0 {
        lemma_degree_sum_empty((n - 1) as nat);
        Seq::<(int, int)>::empty().lemma_filter_len(starts_at(n - 1));
        Seq::<(int, int)>::empty().lemma_filter_len(ends_at(n - 1));
    }
}

/// The degrees of the first `n` nodes add up to twice the number of edges,
/// where every edge joins two of those nodes.
proof fn lemma_degree_sum_is_twice(edges: Seq<(int, int)>, n: nat)
    requires
        forall|k: int|
            0 <= k < edges.len() ==> 0 <= (#[trigger] edges[k]).0 < n && 0 <= edges[k].1 < n,
    ensures
        degree_sum(edges, n) == 2 * edges.len(),
    decreases edges.len(),
{
    if edges.len() == 0 {
        assert(edges =~= Seq::<(int, int)>::empty());
        lemma_degree_sum_empty(n);
    } else {
        let earlier = edges.drop_last();
        assert forall|k: int| 0 <= k < earlier.len() implies 0 <= (#[trigger] earlier[k]).0 < n
            && 0 <= earlier[k].1 < n by {
            assert(earlier[k] == edges[k]);
        }
        lemma_degree_sum_is_twice(earlier, n);
        lemma_degree_sum_push(earlier, edges.last(), n);
        assert(earlier.push(edges.last()) =~= edges);
    }
}

/// The handshake law: the degrees of all nodes of a graph add up to twice
/// the number of its edges, each of several edges between two nodes counted.
pub proof fn lemma_handshake(graph: GraphView)
    requires
        graph.wf(),
    ensures
        degree_sum(graph.edges, graph.nodes.len()) == 2 * graph.edges.len(),
{
    lemma_degree_sum_is_twice(graph.edges, graph.nodes.len());
}

/// Where no edge joins a node to itself, a node has as many neighbours,
/// counted with repetition, as its degree says.
pub proof fn lemma_degree_counts_neighbors(edges: Seq<(int, int)>, n: int, a: int)
    requires
        simple_edges(edges, n),
    ensures
        neighbors(edges, a).len() == degree(edges, a),
        outgoing(edges, a).len() == edges.filter(starts_at(a)).len(),
        incoming(edges, a).len() == edges.filter(ends_at(a)).len(),
    decreases edges.len(),
{
    if edges.len() == 0 {
        edges.lemma_filter_len(starts_at(a));
        edges.lemma_filter_len(ends_at(a));
    } else {
        let earlier = edges.drop_last();
        assert forall|k: int| 0 <= k < earlier.len() implies 0 <= (#[trigger] earlier[k]).0 < n
            && 0 <= earlier[k].1 < n && earlier[k].0 != earlier[k].1 by {
            assert(earlier[k] == edges[k]);
        }
        lemma_degree_counts_neighbors(earlier, n, a);
        earlier.lemma_filter_len_push(starts_at(a), edges.last());
        earlier.lemma_filter_len_push(ends_at(a), edges.last());
        assert(earlier.push(edges.last()) =~= edges);
        assert(edges[edges.len() - 1].0 != edges[edges.len() - 1].1);
    }
}

impl GraphView {
    /// The degree of node `a`: the number of edge ends at `a`.
    pub open spec fn degree(self, a: int) -> nat {
        degree(self.edges, a)
    }
}

/// The degree of `node`: the number of edges at it, each of several edges to
/// the same neighbour counted. A graph that has no such node answers
/// `InvalidNode`.
pub fn node_degree(graph: &CountryGraph, node: usize) -> (outcome: Result<usize, GraphError>)
    requires
        graph.wf(),
    ensures
        match outcome {
            Ok(count) => graph@.has_node(node as int) && count == graph@.degree(node as int),
            Err(error) => !graph@.has_node(node as int) && error == GraphError::InvalidNode,
        },
{
    match graph.neighbors(node) {
        Ok(around) => {
            proof {
                lemma_degree_counts_neighbors(
                    graph@.edges,
                    graph@.nodes.len() as int,
                    node as int,
                );
                assert(as_ints(around@).len() == around@.len());
            }
            Ok(around.len())
        },
        Err(error) => Err(error),
    }
}

/// The degree of every node, by node index. The degrees add up to twice the
/// number of edges.
pub fn node_degrees(graph: &CountryGraph) -> (degrees: Vec<usize>)
    requires
        graph.wf(),
    ensures
        degrees@.len() == graph@.nodes.len(),
        forall|a: int| 0 <= a < degrees@.len() ==> (#[trigger] degrees@[a]) == graph@.degree(a),
        total(degrees@) == 2 * graph@.edges.len(),
{
    let n: usize = graph.node_count();
    let mut degrees: Vec<usize> = Vec::new();
    let mut a: usize = 0;
    while a < n
        invariant
            graph.wf(),
            n == graph@.nodes.len(),
            a <= n,
            degrees@.len() == a,
            forall|b: int| 0 <= b < a ==> (#[trigger] degrees@[b]) == graph@.degree(b),
            total(degrees@) == degree_sum(graph@.edges, a as nat),
        decreases n - a,
    {
        let count: usize = node_degree(graph, a).unwrap();
        let ghost before = degrees@;
        degrees.push(count);
        assert(degrees@.drop_last() =~= before);
        a += 1;
    }
    proof {
        lemma_handshake(graph@);
    }
    degrees
}

} // verus!
