//! A graph of countries, joined where they share a region or lie close in
//! happiness score, with its degrees, its breadth-first order and its
//! betweenness centrality.
//!
//! The indicators of a country are fixed-point numbers counted in
//! millionths. The graph itself is kept by `petgraph`, and the centrality is
//! computed by `rustworkx-core`; the calls into both stand in [`backend`].

pub mod backend;
pub mod builder;
pub mod centrality;
pub mod degree;
pub mod graph;
pub mod record;
pub mod render;
pub mod store;
pub mod traversal;

pub use builder::{build_graph, try_build_graph};
pub use centrality::{betweenness_centrality, calculate_betweenness, PARALLEL_THRESHOLD};
pub use degree::{node_degree, node_degrees};
pub use graph::{CountryGraph, GraphError, CAPACITY};
pub use record::{Country, Policy, SIMILARITY_THRESHOLD, UNITS_PER_POINT};
pub use render::visualize_graph;
pub use store::{CountryStore, StoreError};
pub use traversal::bfs_order;
