use happiness_graph::{
    bfs_order, betweenness_centrality, calculate_betweenness, node_degree, node_degrees,
    visualize_graph, Country, CountryGraph, GraphError,
};

fn plain(name: &str) -> Country {
    Country {
        country_name: name.to_string(),
        country_region: "Region".to_string(),
        happiness_score: 1_500_000,
        happiness_rank: 2,
        gdp: 3,
        health: 4,
        family: 5,
        gove_corruption: 6,
    }
}

fn graph_of(nodes: usize, edges: &[(usize, usize)]) -> CountryGraph {
    let mut graph = CountryGraph::new();
    for i in 0..nodes {
        assert_eq!(graph.add_node(plain(&format!("N{}", i))), Ok(i));
    }
    for (k, &(a, b)) in edges.iter().enumerate() {
        assert_eq!(graph.add_edge(a, b), Ok(k));
    }
    graph
}

fn values(scores: Vec<Option<u64>>) -> Vec<f64> {
    scores.into_iter().map(|s| f64::from_bits(s.unwrap())).collect()
}

#[test]
fn new_graph_is_empty() {
    let graph = CountryGraph::new();
    assert_eq!(graph.node_count(), 0);
    assert_eq!(graph.edge_count(), 0);
    assert_eq!(node_degrees(&graph), Vec::<usize>::new());
    assert_eq!(calculate_betweenness(&graph), Vec::<Option<u64>>::new());
    assert_eq!(bfs_order(&graph, 0), Err(GraphError::InvalidNode));
}

#[test]
fn add_node_numbers_from_zero() {
    let mut graph = CountryGraph::new();
    assert_eq!(graph.add_node(plain("A")), Ok(0));
    assert_eq!(graph.add_node(plain("B")), Ok(1));
    assert_eq!(graph.node_count(), 2);
    assert_eq!(graph.edge_count(), 0);
    assert_eq!(graph.country(0).unwrap().country_name, "A");
    assert_eq!(graph.country(1).unwrap().country_name, "B");
    assert!(matches!(graph.country(2), Err(GraphError::InvalidNode)));
}

#[test]
fn add_edge_numbers_from_zero_and_keeps_the_ends() {
    let mut graph = graph_of(3, &[]);
    assert_eq!(graph.add_edge(2, 0), Ok(0));
    assert_eq!(graph.add_edge(0, 1), Ok(1));
    assert_eq!(graph.add_edge(2, 0), Ok(2));
    assert_eq!(graph.edge_count(), 3);
    assert_eq!(graph.node_count(), 3);
    assert_eq!(graph.edge_endpoints(0), Some((2, 0)));
    assert_eq!(graph.edge_endpoints(1), Some((0, 1)));
    assert_eq!(graph.edge_endpoints(2), Some((2, 0)));
    assert_eq!(graph.edge_endpoints(3), None);
}

#[test]
fn add_edge_refuses_a_missing_node() {
    let mut graph = graph_of(2, &[]);
    assert_eq!(graph.add_edge(0, 2), Err(GraphError::InvalidNode));
    assert_eq!(graph.add_edge(2, 0), Err(GraphError::InvalidNode));
    assert_eq!(graph.add_edge(5, 5), Err(GraphError::InvalidNode));
    assert_eq!(graph.add_edge(usize::MAX, 0), Err(GraphError::InvalidNode));
    assert_eq!(graph.add_edge(4_294_967_296, 1), Err(GraphError::InvalidNode));
    assert_eq!(graph.edge_count(), 0);
}

#[test]
fn add_edge_refuses_a_self_loop() {
    let mut graph = graph_of(2, &[]);
    assert_eq!(graph.add_edge(1, 1), Err(GraphError::SelfLoop));
    assert_eq!(graph.edge_count(), 0);
    assert_eq!(graph.neighbors(1), Ok(vec![]));
}

#[test]
fn neighbors_list_outgoing_then_incoming_latest_first() {
    let graph = graph_of(4, &[(0, 1), (0, 2), (1, 0), (3, 0), (0, 3), (2, 1)]);
    assert_eq!(graph.neighbors(0), Ok(vec![3, 2, 1, 3, 1]));
    assert_eq!(graph.neighbors(1), Ok(vec![0, 2, 0]));
    assert_eq!(graph.neighbors(2), Ok(vec![1, 0]));
    assert_eq!(graph.neighbors(3), Ok(vec![0, 0]));
    assert_eq!(graph.neighbors(4), Err(GraphError::InvalidNode));
    assert_eq!(graph.neighbors(4_294_967_296), Err(GraphError::InvalidNode));
}

#[test]
fn degree_counts_every_edge_at_a_node() {
    let graph = graph_of(4, &[(0, 1), (0, 2), (1, 0), (3, 0), (0, 3), (2, 1)]);
    assert_eq!(node_degree(&graph, 0), Ok(5));
    assert_eq!(node_degree(&graph, 1), Ok(3));
    assert_eq!(node_degree(&graph, 2), Ok(2));
    assert_eq!(node_degree(&graph, 3), Ok(2));
    assert_eq!(node_degree(&graph, 4), Err(GraphError::InvalidNode));
    assert_eq!(node_degrees(&graph), vec![5, 3, 2, 2]);
}

#[test]
fn degrees_add_up_to_twice_the_edges() {
    let graph = graph_of(6, &[(0, 1), (0, 2), (1, 0), (3, 0), (0, 3), (2, 1), (4, 3)]);
    let total: usize = node_degrees(&graph).iter().sum();
    assert_eq!(total, 14);
    assert_eq!(total, 2 * graph.edge_count());
    let lonely = graph_of(3, &[]);
    assert_eq!(node_degrees(&lonely), vec![0, 0, 0]);
}

#[test]
fn bfs_visits_level_by_level() {
    let graph = graph_of(7, &[(0, 1), (0, 2), (1, 3), (2, 4), (3, 5), (4, 5), (1, 2)]);
    assert_eq!(bfs_order(&graph, 0), Ok(vec![0, 2, 1, 4, 3, 5]));
    assert_eq!(bfs_order(&graph, 5), Ok(vec![5, 4, 3, 2, 1, 0]));
    assert_eq!(bfs_order(&graph, 6), Ok(vec![6]));
    assert_eq!(bfs_order(&graph, 7), Err(GraphError::InvalidNode));
    assert_eq!(bfs_order(&graph, 4_294_967_296), Err(GraphError::InvalidNode));
}

#[test]
fn bfs_stays_within_the_component_and_visits_once() {
    let graph = graph_of(8, &[(0, 1), (1, 2), (2, 0), (0, 1), (3, 4), (4, 5), (6, 3), (5, 3)]);
    let first = bfs_order(&graph, 1).unwrap();
    let mut sorted = first.clone();
    sorted.sort();
    assert_eq!(sorted, vec![0, 1, 2]);
    assert_eq!(first[0], 1);
    let second = bfs_order(&graph, 4).unwrap();
    let mut sorted = second.clone();
    sorted.sort();
    assert_eq!(sorted, vec![3, 4, 5, 6]);
    assert_eq!(second, vec![4, 5, 3, 6]);
    assert_eq!(bfs_order(&graph, 7), Ok(vec![7]));
    assert_eq!(bfs_order(&graph, 1), Ok(first));
}

#[test]
fn centrality_is_zero_without_edges() {
    let graph = graph_of(6, &[]);
    assert_eq!(values(calculate_betweenness(&graph)), vec![0.0; 6]);
    assert_eq!(calculate_betweenness(&graph), vec![Some(0); 6]);
    let single = graph_of(1, &[]);
    assert_eq!(calculate_betweenness(&single), vec![Some(0)]);
}

#[test]
fn centrality_of_a_star_is_largest_at_the_hub() {
    let graph = graph_of(5, &[(0, 1), (0, 2), (0, 3), (0, 4)]);
    let scores = values(calculate_betweenness(&graph));
    assert_eq!(scores.len(), 5);
    for leaf in 1..5 {
        assert!(scores[0] > scores[leaf]);
        assert_eq!(scores[leaf], 0.0);
    }
    assert_eq!(scores[0], 6.0);
}

#[test]
fn centrality_of_a_path_counts_each_pair_once() {
    let graph = graph_of(5, &[(0, 1), (1, 2), (2, 3), (3, 4)]);
    assert_eq!(values(calculate_betweenness(&graph)), vec![0.0, 3.0, 4.0, 3.0, 0.0]);
}

#[test]
fn centrality_shares_between_equal_paths() {
    let graph = graph_of(4, &[(0, 1), (1, 2), (2, 3), (3, 0)]);
    assert_eq!(values(calculate_betweenness(&graph)), vec![0.5, 0.5, 0.5, 0.5]);
}

#[test]
fn centrality_does_not_cross_components() {
    let graph = graph_of(6, &[(0, 1), (1, 2), (3, 4), (4, 5)]);
    assert_eq!(values(calculate_betweenness(&graph)), vec![0.0, 1.0, 0.0, 0.0, 1.0, 0.0]);
}

#[test]
fn centrality_of_a_node_without_neighbours_is_zero() {
    let graph = graph_of(5, &[(0, 1), (1, 2), (0, 1)]);
    let scores = calculate_betweenness(&graph);
    assert_eq!(scores[3], Some(0));
    assert_eq!(scores[4], Some(0));
    assert_eq!(values(scores), vec![0.0, 1.0, 0.0, 0.0, 0.0]);
    let shared = betweenness_centrality(&graph, 0);
    assert_eq!(shared[3], Some(0));
    assert_eq!(shared[4], Some(0));
}

#[test]
fn centrality_counts_every_edge_of_a_pair() {
    let graph = graph_of(4, &[(0, 1), (0, 1), (1, 3), (0, 2), (2, 3)]);
    let scores = values(calculate_betweenness(&graph));
    assert_eq!(scores.len(), 4);
    let expected = [2.0 / 3.0, 2.0 / 3.0, 1.0 / 3.0, 1.0 / 3.0];
    for node in 0..4 {
        assert!((scores[node] - expected[node]).abs() < 1e-12);
    }
}

#[test]
fn centrality_on_threads_agrees_on_small_graphs() {
    let graph = graph_of(5, &[(0, 1), (0, 2), (0, 3), (0, 4)]);
    let alone = values(betweenness_centrality(&graph, 6));
    let shared = values(betweenness_centrality(&graph, 0));
    assert_eq!(alone, vec![6.0, 0.0, 0.0, 0.0, 0.0]);
    assert_eq!(shared, alone);
    assert_eq!(betweenness_centrality(&graph, 200), calculate_betweenness(&graph));
}

#[test]
fn dot_text_lists_nodes_and_edges() {
    let graph = graph_of(2, &[(0, 1)]);
    let text = visualize_graph(&graph);
    assert!(text.starts_with("graph {\n"));
    assert!(text.ends_with("}\n"));
    assert!(text.contains("    0 [ label = \""));
    assert!(text.contains("    1 [ label = \""));
    assert!(text.contains("N0"));
    assert!(text.contains("N1"));
    assert!(text.contains("happiness_score: 1500000"));
    assert!(text.contains("    0 -- 1 [ ]\n"));
    assert_eq!(text.lines().count(), 5);
    let empty = visualize_graph(&CountryGraph::new());
    assert_eq!(empty, "graph {\n}\n");
}
