//! The walk to the beliefs downstream of a belief.
use std::collections::HashMap;

use mimir::binary64::Binary64;
use mimir::downstream::Downstream;
use mimir::graph::{Belief, Edge, EdgeType};
use mimir::store::AgeStore;
use mimir::time::Timestamp;

fn belief(id: u128) -> Belief {
    let at = Timestamp::new(0, 0).unwrap();
    let half = Binary64 { bits: 0.5f64.to_bits() };
    Belief::created(id, at, "x".to_string(), half, half).unwrap()
}

/// Walks a graph that is given by its direct neighbours; returns what was asked
/// and what was found.
fn walk(start: u128, graph: &[(u128, Vec<u128>)]) -> (Vec<u128>, Vec<u128>) {
    let graph: HashMap<u128, Vec<u128>> = graph.iter().cloned().collect();
    let mut walk = Downstream::from_belief(start);
    let mut asked = Vec::new();
    while let Some(id) = walk.next() {
        asked.push(id);
        let next: Vec<Belief> = graph
            .get(&id)
            .map(|ids| ids.iter().map(|i| belief(*i)).collect())
            .unwrap_or_default();
        walk = walk.receive(&next);
    }
    (asked, walk.beliefs().iter().map(|b| b.id).collect())
}

#[test]
fn a_belief_without_edges_has_nothing_downstream() {
    assert_eq!(walk(1, &[]), (vec![1], vec![]));
}

#[test]
fn paths_of_any_length_are_followed() {
    let graph: Vec<(u128, Vec<u128>)> = (1..30).map(|i| (i, vec![i + 1])).collect();
    let (_, found) = walk(1, &graph);
    assert_eq!(found, (2..=30).collect::<Vec<u128>>());
}

#[test]
fn each_belief_is_found_once_and_asked_once() {
    let graph = [
        (1, vec![2, 3, 2]),
        (2, vec![4, 1]),
        (3, vec![4, 3]),
        (4, vec![2, 5]),
    ];
    let (asked, found) = walk(1, &graph);
    assert_eq!(asked, vec![1, 2, 3, 4, 5]);
    assert_eq!(found, vec![2, 3, 4, 5]);
}

#[test]
fn a_cycle_does_not_return_the_start() {
    assert_eq!(walk(1, &[(1, vec![1, 2]), (2, vec![1])]).1, vec![2]);
}

#[test]
fn the_store_starts_the_walk_at_the_belief() {
    let store = AgeStore::new("graph".to_string()).unwrap();
    let mut walk = store.get_downstream_beliefs(7);
    assert_eq!(walk.next(), Some(7));
    // A supported belief that defeats another one: both are downstream.
    walk = walk.receive(&[belief(8)]);
    assert_eq!(walk.next(), Some(8));
    walk = walk.receive(&[belief(9)]);
    assert_eq!(walk.next(), Some(9));
    walk = walk.receive(&[]);
    assert_eq!(walk.next(), None);
    let found: Vec<u128> = walk.beliefs().iter().map(|b| b.id).collect();
    assert_eq!(found, vec![8, 9]);
}

/// What is downstream of the first of some beliefs with the given edges.
fn downstream_of(start: u128, edges: &[Edge]) -> Vec<u128> {
    let mut graph: HashMap<u128, Vec<u128>> = HashMap::new();
    for e in edges {
        if e.edge_type != EdgeType::Contradicts {
            graph.entry(e.from_id).or_default().push(e.to_id);
        }
    }
    let graph: Vec<(u128, Vec<u128>)> = graph.into_iter().collect();
    walk(start, &graph).1
}

fn edge(from: u128, to: u128, t: EdgeType, weight: f64) -> Edge {
    Edge::new(from, to, t, Binary64 { bits: weight.to_bits() }).unwrap()
}

#[test]
fn test_get_downstream_via_causes() {
    assert!(downstream_of(1, &[edge(1, 2, EdgeType::Causes, 0.8)]).contains(&2));
}

#[test]
fn test_get_downstream_no_edges_empty() {
    assert!(!downstream_of(1, &[]).contains(&1));
}

#[test]
fn test_get_downstream_multi_hop() {
    let found = downstream_of(
        1,
        &[edge(1, 2, EdgeType::Supports, 0.9), edge(2, 3, EdgeType::Supports, 0.8)],
    );
    assert!(found.contains(&2));
    assert!(found.contains(&3));
}

#[test]
fn paths_may_mix_edge_types_but_not_contradictions() {
    let found = downstream_of(
        1,
        &[
            edge(1, 2, EdgeType::Supports, 0.9),
            edge(2, 3, EdgeType::Defeats, 0.8),
            edge(3, 4, EdgeType::Causes, 0.8),
            edge(4, 5, EdgeType::Contradicts, 1.0),
        ],
    );
    assert_eq!(found, vec![2, 3, 4]);
}
