use vstd::prelude::*;
use crate::backend::{
    edge_ends, graph_add_edge, graph_add_node, graph_edge_count, graph_edge_endpoints, graph_new,
    graph_node_count, graph_node_weight, graph_neighbors, neighbors, node_weights, RawGraph,
};
use crate::record::{Country, CountryView};

verus! {

/// Why an operation on a [`CountryGraph`] was refused.
#[derive(Clone, Copy, Debug, PartialEq, Eq, Structural)]
pub enum GraphError {
    /// A node index was given that the graph has no node for.
    InvalidNode,
    /// An edge was to run from a node to itself.
    SelfLoop,
    /// The graph has as many nodes, or edges, as its indices can number.
    Full,
}

/// The largest number of nodes, and of edges, that a graph can hold.
pub const CAPACITY: usize = 4_294_967_295;

/// An undirected graph of countries. Nodes and edges are numbered from zero
/// in the order in which they were added, and nothing is ever removed. Two
/// nodes may be joined by several edges; no edge joins a node to itself.
pub struct CountryGraph {
    inner: RawGraph,
}

/// The mathematical value of a [`CountryGraph`]: the country of every node,
/// and the two ends of every edge in the order in which they were given.
pub ghost struct GraphView {
    pub nodes: Seq<CountryView>,
    pub edges: Seq<(int, int)>,
}

/// Whether every edge of `edges` joins two different nodes among the first
/// `n`.
pub open spec fn simple_edges(edges: Seq<(int, int)>, n: int) -> bool {
    forall|k: int|
        0 <= k < edges.len() ==> {
            &&& 0 <= (#[trigger] edges[k]).0 < n
            &&& 0 <= edges[k].1 < n
            &&& edges[k].0 != edges[k].1
        }
}

/// Whether some edge of `edges` joins `a` and `b`, whichever end was given
/// first.
pub open spec fn adjacent(edges: Seq<(int, int)>, a: int, b: int) -> bool {
    exists|k: int| 0 <= k < edges.len() && joins(#[trigger] edges[k], a, b)
}

/// Whether `edge` joins `a` and `b`, whichever end was given first.
pub open spec fn joins(edge: (int, int), a: int, b: int) -> bool {
    edge == (a, b) || edge == (b, a)
}

/// Whether an edge joins `a` and `b`.
pub open spec fn joining(a: int, b: int) -> spec_fn((int, int)) -> bool {
    |edge: (int, int)| joins(edge, a, b)
}

/// The number of edges of `edges` that join `a` and `b`.
pub open spec fn edges_between(edges: Seq<(int, int)>, a: int, b: int) -> nat {
    edges.filter(joining(a, b)).len()
}

impl GraphView {
    /// Whether this is the value of a graph: every edge joins two different
    /// nodes of the graph, and nodes and edges can be numbered.
    pub open spec fn wf(self) -> bool {
        &&& self.nodes.len() <= CAPACITY
        &&& self.edges.len() <= CAPACITY
        &&& simple_edges(self.edges, self.nodes.len() as int)
    }

    /// Whether `a` is a node of the graph.
    pub open spec fn has_node(self, a: int) -> bool {
        0 <= a < self.nodes.len()
    }

    /// The neighbours of `a`, one entry for every edge at `a`: first the far
    /// ends of the edges given with `a` first, then those of the edges given
    /// with `a` second, in each part the edge added last coming first.
    pub open spec fn neighbors(self, a: int) -> Seq<int> {
        neighbors(self.edges, a)
    }
}

/// A sequence of node indices as mathematical integers.
pub open spec fn as_ints(indices: Seq<usize>) -> Seq<int> {
    indices.map_values(|i: usize| i as int)
}

impl View for CountryGraph {
    type V = GraphView;

    closed spec fn view(&self) -> GraphView {
        GraphView { nodes: node_weights(self.inner), edges: edge_ends(self.inner) }
    }
}

impl CountryGraph {
    /// The invariant of the graph.
    pub open spec fn wf(&self) -> bool {
        self@.wf()
    }

    /// The graph as the outside crates take it.
    pub(crate) fn raw(&self) -> (inner: &RawGraph)
        ensures
            node_weights(*inner) == self@.nodes,
            edge_ends(*inner) == self@.edges,
    {
        &self.inner
    }

    /// A graph without nodes and edges.
    pub fn new() -> (graph: CountryGraph)
        ensures
            graph.wf(),
            graph@.nodes.len() == 0,
            graph@.edges.len() == 0,
    {
        CountryGraph { inner: graph_new() }
    }

    /// The number of nodes.
    pub fn node_count(&self) -> (n: usize)
        ensures
            n == self@.nodes.len(),
    {
        graph_node_count(&self.inner)
    }

    /// The number of edges, each of several edges between two nodes counted.
    pub fn edge_count(&self) -> (n: usize)
        ensures
            n == self@.edges.len(),
    {
        graph_edge_count(&self.inner)
    }

    /// Adds a node that holds `country` and returns its index, which is the
    /// number of nodes there were. A graph with [`CAPACITY`] nodes takes no
    /// more and stays as it was.
    pub fn add_node(&mut self, country: Country) -> (outcome: Result<usize, GraphError>)
        requires
            old(self).wf(),
        ensures
            final(self).wf(),
            match outcome {
                Ok(index) => {
                    &&& old(self)@.nodes.len() < CAPACITY
                    &&& index == old(self)@.nodes.len()
                    &&& final(self)@.nodes == old(self)@.nodes.push(country@)
                    &&& final(self)@.edges == old(self)@.edges
                },
                Err(error) => {
                    &&& old(self)@.nodes.len() == CAPACITY
                    &&& error == GraphError::Full
                    &&& final(self)@ == old(self)@
                },
            },
    {
        if graph_node_count(&self.inner) >= CAPACITY {
            return Err(GraphError::Full);
        }
        let index: usize = graph_add_node(&mut self.inner, country);
        Ok(index)
    }

    /// Adds an edge between the nodes `a` and `b` and returns its index,
    /// which is the number of edges there were. An edge that two nodes
    /// already have is added once more.
    ///
    /// The edge is refused, and the graph stays as it was, with
    /// `InvalidNode` when `a` or `b` is no node of the graph, else with
    /// `SelfLoop` when `a` is `b`, else with `Full` when the graph has
    /// [`CAPACITY`] edges.
    pub fn add_edge(&mut self, a: usize, b: usize) -> (outcome: Result<usize, GraphError>)
        requires
            old(self).wf(),
        ensures
            final(self).wf(),
            final(self)@.nodes == old(self)@.nodes,
            outcome is Err ==> final(self)@ == old(self)@,
            outcome == add_edge_outcome(old(self)@, a, b),
            outcome is Ok ==> final(self)@.edges == old(self)@.edges.push((a as int, b as int)),
    {
        let n: usize = graph_node_count(&self.inner);
        if a >= n || b >= n {
            return Err(GraphError::InvalidNode);
        }
        if a == b {
            return Err(GraphError::SelfLoop);
        }
        let m: usize = graph_edge_count(&self.inner);
        if m >= CAPACITY {
            return Err(GraphError::Full);
        }
        graph_add_edge(&mut self.inner, a, b);
        Ok(m)
    }

    /// The country in node `a`, or `InvalidNode` when the graph has no such
    /// node.
    pub fn country(&self, a: usize) -> (outcome: Result<&Country, GraphError>)
        requires
            self.wf(),
        ensures
            match outcome {
                Ok(country) => self@.has_node(a as int) && country@ == self@.nodes[a as int],
                Err(error) => !self@.has_node(a as int) && error == GraphError::InvalidNode,
            },
    {
        if a >= graph_node_count(&self.inner) {
            return Err(GraphError::InvalidNode);
        }
        Ok(graph_node_weight(&self.inner, a))
    }

    /// The two ends of edge `k` in the order in which they were given, or
    /// `None` when the graph has no such edge.
    pub fn edge_endpoints(&self, k: usize) -> (ends: Option<(usize, usize)>)
        requires
            self.wf(),
        ensures
            match ends {
                Some(pair) => k < self@.edges.len() && (pair.0 as int, pair.1 as int)
                    == self@.edges[k as int],
                None => k >= self@.edges.len(),
            },
    {
        if k >= graph_edge_count(&self.inner) {
            return None;
        }
        graph_edge_endpoints(&self.inner, k)
    }

    /// The neighbours of node `a`, one entry for every edge at `a`, or
    /// `InvalidNode` when the graph has no such node.
    pub fn neighbors(&self, a: usize) -> (outcome: Result<Vec<usize>, GraphError>)
        requires
            self.wf(),
        ensures
            match outcome {
                Ok(around) => self@.has_node(a as int) && as_ints(around@) == self@.neighbors(
                    a as int,
                ),
                Err(error) => !self@.has_node(a as int) && error == GraphError::InvalidNode,
            },
    {
        if a >= graph_node_count(&self.inner) {
            return Err(GraphError::InvalidNode);
        }
        let around = graph_neighbors(&self.inner, a);
        assert(as_ints(around@) =~= self@.neighbors(a as int));
        Ok(around)
    }
}

/// What [`CountryGraph::add_edge`] answers when asked for an edge between
/// `a` and `b` in a graph of value `graph`.
pub open spec fn add_edge_outcome(graph: GraphView, a: usize, b: usize) -> Result<usize, GraphError> {
    if !graph.has_node(a as int) || !graph.has_node(b as int) {
        Err(GraphError::InvalidNode)
    } else if a == b {
        Err(GraphError::SelfLoop)
    } else if graph.edges.len() >= CAPACITY {
        Err(GraphError::Full)
    } else {
        Ok(graph.edges.len() as usize)
    }
}

} // verus!
