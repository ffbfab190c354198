use happiness_graph::{Country, CountryStore, StoreError};

fn named(name: &str, score: i64) -> Country {
    Country {
        country_name: name.to_string(),
        country_region: "Region".to_string(),
        happiness_score: score,
        happiness_rank: 0,
        gdp: 0,
        health: 0,
        family: 0,
        gove_corruption: 0,
    }
}

#[test]
fn new_store_is_empty() {
    let store = CountryStore::new();
    assert_eq!(store.len(), 0);
    assert!(store.is_empty());
    assert!(store.countries().is_empty());
    assert!(store.get(&"A".to_string()).is_none());
    assert_eq!(store.position(&"A".to_string()), None);
}

#[test]
fn insert_appends_new_names() {
    let mut store = CountryStore::new();
    assert!(store.insert(named("A", 1)).unwrap().is_none());
    assert!(store.insert(named("B", 2)).unwrap().is_none());
    assert!(store.insert(named("C", 3)).unwrap().is_none());
    assert_eq!(store.len(), 3);
    assert!(!store.is_empty());
    let names: Vec<&str> = store.countries().iter().map(|c| c.country_name.as_str()).collect();
    assert_eq!(names, vec!["A", "B", "C"]);
    assert_eq!(store.position(&"B".to_string()), Some(1));
    assert_eq!(store.position(&"D".to_string()), None);
}

#[test]
fn insert_replaces_a_known_name_in_place() {
    let mut store = CountryStore::new();
    store.insert(named("A", 1)).unwrap();
    store.insert(named("B", 2)).unwrap();
    store.insert(named("C", 3)).unwrap();
    let earlier = store.insert(named("B", 20)).unwrap().unwrap();
    assert_eq!(earlier.country_name, "B");
    assert_eq!(earlier.happiness_score, 2);
    assert_eq!(store.len(), 3);
    let scores: Vec<i64> = store.countries().iter().map(|c| c.happiness_score).collect();
    assert_eq!(scores, vec![1, 20, 3]);
    let names: Vec<&str> = store.countries().iter().map(|c| c.country_name.as_str()).collect();
    assert_eq!(names, vec!["A", "B", "C"]);
}

#[test]
fn insert_refuses_an_empty_name() {
    let mut store = CountryStore::new();
    store.insert(named("A", 1)).unwrap();
    let outcome = store.insert(named("", 5));
    assert!(matches!(outcome, Err(StoreError::EmptyName)));
    assert_eq!(store.len(), 1);
    assert_eq!(store.countries()[0].country_name, "A");
}

#[test]
fn get_finds_by_name() {
    let mut store = CountryStore::new();
    store.insert(named("A", 1)).unwrap();
    store.insert(named("B", 2)).unwrap();
    assert_eq!(store.get(&"B".to_string()).unwrap().happiness_score, 2);
    assert_eq!(store.get(&"A".to_string()).unwrap().happiness_score, 1);
    assert!(store.get(&"b".to_string()).is_none());
}

#[test]
fn clone_keeps_every_field() {
    let first = Country {
        country_name: "Name".to_string(),
        country_region: "Region".to_string(),
        happiness_score: 1,
        happiness_rank: 2,
        gdp: 3,
        health: 4,
        family: 5,
        gove_corruption: 6,
    };
    let copy = first.clone();
    assert_eq!(copy.country_name, "Name");
    assert_eq!(copy.country_region, "Region");
    assert_eq!(copy.happiness_score, 1);
    assert_eq!(copy.happiness_rank, 2);
    assert_eq!(copy.gdp, 3);
    assert_eq!(copy.health, 4);
    assert_eq!(copy.family, 5);
    assert_eq!(copy.gove_corruption, 6);
}

#[test]
fn units_and_threshold_are_one_point() {
    assert_eq!(happiness_graph::UNITS_PER_POINT, 1_000_000);
    assert_eq!(happiness_graph::SIMILARITY_THRESHOLD, happiness_graph::UNITS_PER_POINT);
}
