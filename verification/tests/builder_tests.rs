use happiness_graph::{build_graph, try_build_graph, Country, CountryGraph, CountryStore};

fn country(name: &str, region: &str, score: i64) -> Country {
    Country {
        country_name: name.to_string(),
        country_region: region.to_string(),
        happiness_score: score,
        happiness_rank: 1_000_000,
        gdp: 1_200_000,
        health: 800_000,
        family: 1_500_000,
        gove_corruption: 200_000,
    }
}

fn store_of(countries: Vec<Country>) -> CountryStore {
    let mut store = CountryStore::new();
    for c in countries {
        assert!(store.insert(c).unwrap().is_none());
    }
    store
}

fn edges_of(graph: &CountryGraph) -> Vec<(usize, usize)> {
    (0..graph.edge_count()).map(|k| graph.edge_endpoints(k).unwrap()).collect()
}

fn joined(graph: &CountryGraph, a: usize, b: usize) -> usize {
    edges_of(graph).iter().filter(|&&e| e == (a, b) || e == (b, a)).count()
}

fn five_countries() -> CountryStore {
    store_of(vec![
        country("A", "R1", 5_000_000),
        country("B", "R2", 5_500_000),
        country("C", "R1", 7_000_000),
        country("D", "R3", 9_000_000),
        country("E", "R2", 6_200_000),
    ])
}

#[test]
fn test_build_graph() {
    let mut test_data = CountryStore::new();
    test_data
        .insert(Country {
            country_name: "Country1".to_string(),
            country_region: "Region1".to_string(),
            happiness_score: 7_500_000,
            happiness_rank: 1_000_000,
            gdp: 1_200_000,
            health: 800_000,
            family: 1_500_000,
            gove_corruption: 200_000,
        })
        .unwrap();
    test_data
        .insert(Country {
            country_name: "Country2".to_string(),
            country_region: "Region2".to_string(),
            happiness_score: 6_800_000,
            happiness_rank: 2_000_000,
            gdp: 1_000_000,
            health: 900_000,
            family: 1_300_000,
            gove_corruption: 100_000,
        })
        .unwrap();

    let graph = build_graph(&test_data);

    assert!(graph.node_count() > 0);
    assert!(graph.edge_count() > 0);
}

#[test]
fn node_count_is_the_number_of_countries() {
    let store = five_countries();
    let graph = build_graph(&store);
    assert_eq!(graph.node_count(), 5);
    assert_eq!(graph.node_count(), store.len());
}

#[test]
fn nodes_hold_the_countries_in_store_order() {
    let store = five_countries();
    let graph = build_graph(&store);
    for (i, expected) in store.countries().iter().enumerate() {
        let held = graph.country(i).unwrap();
        assert_eq!(held.country_name, expected.country_name);
        assert_eq!(held.country_region, expected.country_region);
        assert_eq!(held.happiness_score, expected.happiness_score);
        assert_eq!(held.happiness_rank, expected.happiness_rank);
        assert_eq!(held.gdp, expected.gdp);
        assert_eq!(held.health, expected.health);
        assert_eq!(held.family, expected.family);
        assert_eq!(held.gove_corruption, expected.gove_corruption);
    }
}

#[test]
fn single_country_has_no_edges() {
    let graph = build_graph(&store_of(vec![country("A", "R1", 5_000_000)]));
    assert_eq!(graph.node_count(), 1);
    assert_eq!(graph.edge_count(), 0);
}

#[test]
fn empty_store_gives_empty_graph() {
    let graph = build_graph(&CountryStore::new());
    assert_eq!(graph.node_count(), 0);
    assert_eq!(graph.edge_count(), 0);
}

#[test]
fn edges_come_by_policy_then_by_pair() {
    let graph = build_graph(&five_countries());
    assert_eq!(edges_of(&graph), vec![(0, 2), (1, 4), (0, 1), (1, 4), (2, 4)]);
}

#[test]
fn countries_of_one_region_are_all_joined() {
    let store = store_of(vec![
        country("A", "North", 1_000_000),
        country("B", "South", 3_000_000),
        country("C", "North", 5_000_000),
        country("D", "North", 7_000_000),
        country("E", "South", 9_000_000),
    ]);
    let graph = build_graph(&store);
    assert_eq!(edges_of(&graph), vec![(0, 2), (0, 3), (1, 4), (2, 3)]);
    let all = store.countries();
    for i in 0..all.len() {
        for j in 0..all.len() {
            if i != j && all[i].country_region == all[j].country_region {
                assert!(joined(&graph, i, j) >= 1);
            }
        }
    }
}

#[test]
fn countries_of_similar_score_are_all_joined() {
    let store = store_of(vec![
        country("A", "R1", 5_000_000),
        country("B", "R2", 5_999_999),
        country("C", "R3", 6_000_000),
        country("D", "R4", 6_999_998),
    ]);
    let graph = build_graph(&store);
    assert_eq!(edges_of(&graph), vec![(0, 1), (1, 2), (1, 3), (2, 3)]);
    let all = store.countries();
    for i in 0..all.len() {
        for j in 0..all.len() {
            let gap = (all[i].happiness_score - all[j].happiness_score).abs();
            if i != j && gap < 1_000_000 {
                assert!(joined(&graph, i, j) >= 1);
            }
        }
    }
}

#[test]
fn unlinked_countries_are_not_joined() {
    let store = five_countries();
    let graph = build_graph(&store);
    let all = store.countries();
    for i in 0..all.len() {
        for j in 0..all.len() {
            let gap = (all[i].happiness_score - all[j].happiness_score).abs();
            if all[i].country_region != all[j].country_region && gap >= 1_000_000 {
                assert_eq!(joined(&graph, i, j), 0);
            }
        }
    }
    assert_eq!(joined(&graph, 0, 3), 0);
    assert_eq!(joined(&graph, 0, 4), 0);
}

#[test]
fn a_gap_of_one_point_is_not_similar() {
    let graph = build_graph(&store_of(vec![
        country("A", "R1", 5_000_000),
        country("B", "R2", 6_000_000),
    ]));
    assert_eq!(graph.edge_count(), 0);
    let graph = build_graph(&store_of(vec![
        country("A", "R1", 6_000_000),
        country("B", "R2", 5_000_001),
    ]));
    assert_eq!(edges_of(&graph), vec![(0, 1)]);
}

#[test]
fn both_policies_give_two_edges() {
    let graph = build_graph(&store_of(vec![
        country("A", "R1", 5_000_000),
        country("B", "R1", 5_200_000),
    ]));
    assert_eq!(edges_of(&graph), vec![(0, 1), (0, 1)]);
    assert_eq!(joined(&graph, 0, 1), 2);
}

#[test]
fn no_edge_joins_a_node_to_itself() {
    let graph = build_graph(&five_countries());
    for (a, b) in edges_of(&graph) {
        assert!(a < b);
        assert!(b < graph.node_count());
    }
}

#[test]
fn try_build_graph_builds_the_same_graph() {
    let store = five_countries();
    let graph = try_build_graph(&store).unwrap();
    let other = build_graph(&store);
    assert_eq!(graph.node_count(), other.node_count());
    assert_eq!(edges_of(&graph), edges_of(&other));
}

#[test]
fn two_countries_close_in_score() {
    let store = store_of(vec![country("A", "R1", 7_500_000), country("B", "R2", 6_800_000)]);
    let graph = build_graph(&store);
    assert_eq!(graph.node_count(), 2);
    assert_eq!(graph.edge_count(), 1);
    assert_eq!(edges_of(&graph), vec![(0, 1)]);
    assert_eq!(happiness_graph::node_degree(&graph, 0), Ok(1));
    assert_eq!(happiness_graph::node_degree(&graph, 1), Ok(1));
    assert_eq!(happiness_graph::node_degrees(&graph), vec![1, 1]);
    assert_eq!(happiness_graph::bfs_order(&graph, 0), Ok(vec![0, 1]));
    let scores = happiness_graph::calculate_betweenness(&graph);
    assert_eq!(scores.len(), 2);
    assert_eq!(f64::from_bits(scores[0].unwrap()), 0.0);
    assert_eq!(f64::from_bits(scores[1].unwrap()), 0.0);
}

#[test]
fn three_countries_of_one_region() {
    let store = store_of(vec![
        country("A", "R1", 9_000_000),
        country("B", "R1", 1_000_000),
        country("C", "R1", 5_000_000),
    ]);
    let graph = build_graph(&store);
    assert_eq!(graph.node_count(), 3);
    assert_eq!(graph.edge_count(), 3);
    assert_eq!(edges_of(&graph), vec![(0, 1), (0, 2), (1, 2)]);
    let scores = happiness_graph::calculate_betweenness(&graph);
    assert_eq!(scores.len(), 3);
    for score in scores {
        assert_eq!(f64::from_bits(score.unwrap()), 0.0);
    }
}

#[test]
fn scores_at_the_ends_of_the_range_do_not_overflow() {
    let a = country("A", "R1", i64::MAX);
    let b = country("B", "R2", i64::MIN);
    assert!(!a.is_similar_to(&b));
    assert!(!b.is_similar_to(&a));
    assert!(a.is_similar_to(&a));
    assert!(!a.shares_region_with(&b));
    assert!(a.linked_by(happiness_graph::Policy::SimilarScore, &country("C", "R9", i64::MAX - 999_999)));
    assert!(!a.linked_by(happiness_graph::Policy::SimilarScore, &country("C", "R9", i64::MAX - 1_000_000)));
    assert!(a.linked_by(happiness_graph::Policy::SameRegion, &country("C", "R1", 0)));
    assert!(!a.linked_by(happiness_graph::Policy::SameRegion, &country("C", "R9", i64::MAX)));
    assert_eq!(build_graph(&store_of(vec![a, b])).edge_count(), 0);
}
