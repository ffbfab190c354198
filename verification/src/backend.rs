//! The calls into `petgraph` and `rustworkx-core`.
//!
//! Nothing in this file is proved. Every executable function here makes one
//! call into an outside crate, and its contract states what that crate's
//! source shows of the call. What an outside value holds is spoken of
//! through the names [`node_weights`], [`edge_ends`], [`bfs_queue`],
//! [`bfs_seen`] and [`bfs_limit`]; what an outside routine returns, where
//! that takes pages to say, through [`brandes_scores`] and
//! [`dot_rendering`].

use vstd::prelude::*;
use crate::record::{Country, CountryView};

verus! {

/// `Graph` of `petgraph`, carried as a value that is not looked into.
#[verifier::external_type_specification]
#[verifier::external_body]
#[verifier::reject_recursive_types(N)]
#[verifier::reject_recursive_types(E)]
#[verifier::reject_recursive_types(Ty)]
#[verifier::reject_recursive_types(Ix)]
pub struct ExGraph<N, E, Ty, Ix>(petgraph::graph::Graph<N, E, Ty, Ix>);

/// `Undirected` of `petgraph`, the mark of a graph whose edges run both
/// ways.
#[verifier::external_type_specification]
#[verifier::external_body]
pub struct ExUndirected(petgraph::Undirected);

/// `NodeIndex` of `petgraph`, the form in which a traversal holds the nodes
/// in its queue.
#[verifier::external_type_specification]
#[verifier::external_body]
#[verifier::reject_recursive_types(Ix)]
pub struct ExNodeIndex<Ix>(petgraph::graph::NodeIndex<Ix>);

/// `FixedBitSet` of `fixedbitset`, in which a traversal marks the nodes it
/// has discovered.
#[verifier::external_type_specification]
#[verifier::external_body]
pub struct ExFixedBitSet(fixedbitset::FixedBitSet);

/// `Bfs` of `petgraph`, carried as a value that is not looked into.
#[verifier::external_type_specification]
#[verifier::external_body]
#[verifier::reject_recursive_types(N)]
#[verifier::reject_recursive_types(VM)]
pub struct ExBfs<N, VM>(petgraph::visit::Bfs<N, VM>);

/// An undirected `petgraph` graph with a country in every node and nothing
/// on its edges.
pub type RawGraph = petgraph::graph::Graph<Country, (), petgraph::Undirected, u32>;

/// A breadth-first traversal of a [`RawGraph`] that is under way.
pub type RawBfs = petgraph::visit::Bfs<petgraph::graph::NodeIndex<u32>, fixedbitset::FixedBitSet>;

/// The countries in the nodes of `g`, by node index.
pub uninterp spec fn node_weights(g: RawGraph) -> Seq<CountryView>;

/// The two ends of every edge of `g`, by edge index, each pair in the order
/// in which the ends were given when the edge was added.
pub uninterp spec fn edge_ends(g: RawGraph) -> Seq<(int, int)>;

/// The node indices that wait in the queue of `b`, the front first.
pub uninterp spec fn bfs_queue(b: RawBfs) -> Seq<int>;

/// The node indices that `b` has marked as discovered.
pub uninterp spec fn bfs_seen(b: RawBfs) -> Set<int>;

/// The number of node indices for which `b` has room in its map of
/// discovered nodes.
pub uninterp spec fn bfs_limit(b: RawBfs) -> nat;

/// The far ends of those edges that were added with `a` as their first end,
/// the edge added last coming first.
pub open spec fn outgoing(edges: Seq<(int, int)>, a: int) -> Seq<int>
    decreases edges.len(),
{
    if edges.len() == 0 {
        Seq::empty()
    } else {
        let earlier = outgoing(edges.drop_last(), a);
        if edges.last().0 == a {
            seq![edges.last().1] + earlier
        } else {
            earlier
        }
    }
}

/// The near ends of those edges that were added with `a` as their second end
/// and another node as their first, the edge added last coming first.
pub open spec fn incoming(edges: Seq<(int, int)>, a: int) -> Seq<int>
    decreases edges.len(),
{
    if edges.len() == 0 {
        Seq::empty()
    } else {
        let earlier = incoming(edges.drop_last(), a);
        if edges.last().1 == a && edges.last().0 != a {
            seq![edges.last().0] + earlier
        } else {
            earlier
        }
    }
}

/// The neighbours of `a` in the order in which an undirected `petgraph`
/// graph lists them: one entry for every edge at `a`, first the edges that
/// start at `a`, then those that end there.
pub open spec fn neighbors(edges: Seq<(int, int)>, a: int) -> Seq<int> {
    outgoing(edges, a) + incoming(edges, a)
}

/// What one step of a breadth-first traversal does with the neighbours
/// `around` of the node it has taken from the queue: each one that is not yet
/// in `seen` is put into `seen` and at the back of `queue`, in the order of
/// `around`.
pub open spec fn discover(around: Seq<int>, queue: Seq<int>, seen: Set<int>) -> (Seq<int>, Set<int>)
    decreases around.len(),
{
    if around.len() == 0 {
        (queue, seen)
    } else if seen.contains(around.first()) {
        discover(around.drop_first(), queue, seen)
    } else {
        discover(around.drop_first(), queue.push(around.first()), seen.insert(around.first()))
    }
}

/// `Graph::new_undirected` of `petgraph`: a graph without nodes and edges.
#[verifier::external_body]
pub(crate) fn graph_new() -> (g: RawGraph)
    ensures
        node_weights(g) == Seq::<CountryView>::empty(),
        edge_ends(g) == Seq::<(int, int)>::empty(),
{
    petgraph::graph::Graph::new_undirected()
}

/// `Graph::node_count` of `petgraph`: the number of nodes.
#[verifier::external_body]
pub(crate) fn graph_node_count(g: &RawGraph) -> (n: usize)
    ensures
        n == node_weights(*g).len(),
{
    g.node_count()
}

/// `Graph::edge_count` of `petgraph`: the number of edges.
#[verifier::external_body]
pub(crate) fn graph_edge_count(g: &RawGraph) -> (n: usize)
    ensures
        n == edge_ends(*g).len(),
{
    g.edge_count()
}

/// `Graph::add_node` of `petgraph`: the new node comes after the others and
/// its index is the number of nodes there were; the edges stay. The call
/// panics when the graph already has `u32::MAX` nodes, which the
/// precondition leaves out.
#[verifier::external_body]
pub(crate) fn graph_add_node(g: &mut RawGraph, country: Country) -> (index: usize)
    requires
        node_weights(*old(g)).len() < u32::MAX,
    ensures
        node_weights(*final(g)) == node_weights(*old(g)).push(country@),
        edge_ends(*final(g)) == edge_ends(*old(g)),
        index == node_weights(*old(g)).len(),
{
    g.add_node(country).index()
}

/// `Graph::add_edge` of `petgraph`: the new edge comes after the others, with
/// its ends in the order given; the nodes stay. The call panics when an end
/// is no node of the graph or when the graph already has `u32::MAX` edges,
/// which the precondition leaves out.
#[verifier::external_body]
pub(crate) fn graph_add_edge(g: &mut RawGraph, a: usize, b: usize)
    requires
        a < node_weights(*old(g)).len(),
        b < node_weights(*old(g)).len(),
        node_weights(*old(g)).len() <= u32::MAX,
        edge_ends(*old(g)).len() < u32::MAX,
    ensures
        node_weights(*final(g)) == node_weights(*old(g)),
        edge_ends(*final(g)) == edge_ends(*old(g)).push((a as int, b as int)),
{
    g.add_edge(petgraph::graph::NodeIndex::new(a), petgraph::graph::NodeIndex::new(b), ());
}

/// Indexing a `petgraph` graph by a node index: the country in that node.
/// Indexing panics when there is no such node, which the precondition leaves
/// out.
#[verifier::external_body]
pub(crate) fn graph_node_weight(g: &RawGraph, a: usize) -> (country: &Country)
    requires
        a < node_weights(*g).len(),
        node_weights(*g).len() <= u32::MAX,
    ensures
        country@ == node_weights(*g)[a as int],
{
    &g[petgraph::graph::NodeIndex::new(a)]
}

/// `Graph::edge_endpoints` of `petgraph`: the two ends of the edge with
/// index `k`, in the order in which they were given when it was added.
#[verifier::external_body]
pub(crate) fn graph_edge_endpoints(g: &RawGraph, k: usize) -> (ends: Option<(usize, usize)>)
    requires
        k < edge_ends(*g).len(),
        edge_ends(*g).len() <= u32::MAX,
    ensures
        match ends {
            Some(pair) => pair.0 == edge_ends(*g)[k as int].0 && pair.1 == edge_ends(*g)[k as int].1,
            None => false,
        },
{
    g.edge_endpoints(petgraph::graph::EdgeIndex::new(k)).map(|ends| (ends.0.index(), ends.1.index()))
}

/// `Graph::neighbors` of `petgraph` on an undirected graph, gathered into a
/// vector: one entry for every edge at `a`, in the order that `petgraph`
/// documents for `neighbors_undirected`.
#[verifier::external_body]
pub(crate) fn graph_neighbors(g: &RawGraph, a: usize) -> (around: Vec<usize>)
    requires
        a < node_weights(*g).len(),
        node_weights(*g).len() <= u32::MAX,
    ensures
        around@.len() == neighbors(edge_ends(*g), a as int).len(),
        forall|k: int|
            0 <= k < around@.len() ==> (#[trigger] around@[k]) as int == neighbors(
                edge_ends(*g),
                a as int,
            )[k],
{
    g.neighbors(petgraph::graph::NodeIndex::new(a)).map(|node| node.index()).collect()
}

/// `Bfs::new` of `petgraph`: a traversal with `start` alone in its queue and
/// alone marked as discovered, and with room for the nodes of `g`. The call
/// panics when `start` is no node of `g`, which the precondition leaves out.
#[verifier::external_body]
pub(crate) fn bfs_new(g: &RawGraph, start: usize) -> (b: RawBfs)
    requires
        start < node_weights(*g).len(),
        node_weights(*g).len() <= u32::MAX,
    ensures
        bfs_queue(b) == seq![start as int],
        bfs_seen(b) == set![start as int],
        bfs_limit(b) == node_weights(*g).len(),
{
    petgraph::visit::Bfs::new(g, petgraph::graph::NodeIndex::new(start))
}

/// `Bfs::next` of `petgraph`: with an empty queue it returns `None` and
/// changes nothing; otherwise it takes the node at the front of the queue,
/// discovers its neighbours as [`discover`] says, and returns it. The call
/// panics when a neighbour lies beyond the room of the traversal, which
/// cannot happen when that room is the number of nodes of `g`.
#[verifier::external_body]
pub(crate) fn bfs_next(b: &mut RawBfs, g: &RawGraph) -> (node: Option<usize>)
    requires
        bfs_limit(*old(b)) == node_weights(*g).len(),
    ensures
        bfs_limit(*final(b)) == bfs_limit(*old(b)),
        bfs_queue(*old(b)).len() == 0 ==> {
            &&& node is None
            &&& bfs_queue(*final(b)) == bfs_queue(*old(b))
            &&& bfs_seen(*final(b)) == bfs_seen(*old(b))
        },
        bfs_queue(*old(b)).len() > 0 ==> {
            &&& node is Some
            &&& node->0 == bfs_queue(*old(b)).first()
            &&& (bfs_queue(*final(b)), bfs_seen(*final(b))) == discover(
                neighbors(edge_ends(*g), bfs_queue(*old(b)).first()),
                bfs_queue(*old(b)).drop_first(),
                bfs_seen(*old(b)),
            )
        },
{
    b.next(g).map(|node| node.index())
}

/// The scores that `betweenness_centrality` of `rustworkx-core` computes for
/// an undirected graph of `nodes` nodes with the edges `edges` when it takes
/// the nodes one after the other: for every node the binary64 bit pattern of
/// its score, neither normalised nor counting the ends of a path.
pub uninterp spec fn brandes_scores(nodes: nat, edges: Seq<(int, int)>) -> Seq<Option<u64>>;

/// The text that `Dot` of `petgraph` writes, with its `Debug` form and
/// without edge labels, for an undirected graph of the countries `nodes` with
/// the edges `edges`.
pub uninterp spec fn dot_rendering(nodes: Seq<CountryView>, edges: Seq<(int, int)>) -> Seq<char>;

/// `betweenness_centrality` of `rustworkx-core`, without the ends of paths
/// and without normalising, each score handed out as its bit pattern. The
/// result has one entry for every node, and every entry is present. A node
/// without neighbours is reached from no other node and adds nothing as a
/// source, so its score stays the zero it began with. Below
/// `parallel_threshold` nodes the routine takes the nodes one after the
/// other and the scores are those of [`brandes_scores`]; from there on it
/// adds up in an order that threads decide, and no more is said of the
/// values.
#[verifier::external_body]
pub(crate) fn graph_betweenness(g: &RawGraph, parallel_threshold: usize) -> (scores: Vec<Option<u64>>)
    ensures
        scores@.len() == node_weights(*g).len(),
        forall|a: int| 0 <= a < scores@.len() ==> (#[trigger] scores@[a]) is Some,
        forall|a: int|
            0 <= a < scores@.len() && neighbors(edge_ends(*g), a).len() == 0 ==> (
            #[trigger] scores@[a]) == Some(0u64),
        node_weights(*g).len() < parallel_threshold ==> scores@ == brandes_scores(
            node_weights(*g).len(),
            edge_ends(*g),
        ),
{
    rustworkx_core::centrality::betweenness_centrality(g, false, false, parallel_threshold)
        .into_iter()
        .map(|score| score.map(|value| value.to_bits()))
        .collect()
}

/// The `Debug` form of `Dot::with_config` of `petgraph` with
/// `Config::EdgeNoLabel`, as a string: the text of [`dot_rendering`].
#[verifier::external_body]
pub(crate) fn graph_dot(g: &RawGraph) -> (text: String)
    ensures
        text@ == dot_rendering(node_weights(*g), edge_ends(*g)),
{
    format!("{:?}", petgraph::dot::Dot::with_config(g, &[petgraph::dot::Config::EdgeNoLabel]))
}

} // verus!
