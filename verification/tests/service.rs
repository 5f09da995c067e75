use std::collections::HashMap;

use mimir::binary64::Binary64;
use mimir::documents::DocumentChunk;
use mimir::graph::{Belief, EdgeType, GraphError, MemoryType, Probability};
use mimir::ids::format_id;
use mimir::service::{
    answer_document_query, chunks_to_fetch, collect_evidence, compatible_projects,
    external_means_from, filter_by_type, ground_beliefs, grounding_weight, pick_grounds, plan_edge,
    plan_grounds, similar_enough, strip_source_means, strongest,
};
use mimir::time::Timestamp;

fn num(v: f64) -> Binary64 {
    Binary64 { bits: v.to_bits() }
}

fn prob(v: f64) -> Probability {
    Probability::new(num(v)).unwrap()
}

fn belief(id: u128, t: MemoryType) -> Belief {
    let at = Timestamp::new(0, 0).unwrap();
    Belief::created(id, at, format!("b{id}"), num(0.5), num(0.5))
        .unwrap()
        .with_memory_type(t)
}

fn chunk(id: u128, content: &str, parent: Option<u128>) -> DocumentChunk {
    DocumentChunk::with_id(id, format!("/{id}.md"), vec!["H".into()], content.into(), parent, None)
}

#[test]
fn source_means_are_split_off() {
    let rows = [
        (1, 2, EdgeType::Supports, prob(0.5), prob(0.25)),
        (3, 2, EdgeType::Defeats, prob(0.1), prob(0.75)),
        (3, 4, EdgeType::Causes, prob(0.2), prob(0.5)),
        (2, 4, EdgeType::Causes, prob(0.2), prob(0.9)),
    ];
    let edges = strip_source_means(&rows);
    assert_eq!(edges[1], (3, 2, EdgeType::Defeats, prob(0.1)));
    assert_eq!(edges.len(), 4);
    let means = external_means_from(&rows, &[2, 4]);
    assert_eq!(means.len(), 2);
    assert_eq!(means[&1], prob(0.25));
    // The first edge of a source counts.
    assert_eq!(means[&3], prob(0.75));
    assert!(external_means_from(&[], &[1]).is_empty());
}

#[test]
fn contradictions_go_both_ways() {
    let plan = plan_edge(1, 2, EdgeType::Contradicts, num(0.5)).unwrap();
    assert!(!plan.propagate);
    let ends: Vec<(u128, u128)> = plan.edges.iter().map(|e| (e.from_id, e.to_id)).collect();
    assert_eq!(ends, vec![(1, 2), (2, 1)]);
    assert!(plan.edges.iter().all(|e| e.edge_type == EdgeType::Contradicts && e.weight == prob(0.5)));
}

#[test]
fn only_defeats_are_propagated() {
    for (t, propagate) in [
        (EdgeType::Supports, false),
        (EdgeType::Causes, false),
        (EdgeType::Defeats, true),
    ] {
        let plan = plan_edge(1, 2, t, num(1.0)).unwrap();
        assert_eq!(plan.propagate, propagate);
        assert_eq!(plan.edges.len(), 1);
        assert_eq!((plan.edges[0].from_id, plan.edges[0].to_id), (1, 2));
    }
    assert!(matches!(
        plan_edge(1, 2, EdgeType::Defeats, num(1.5)),
        Err(GraphError::ProbabilityOutOfRange(v)) if v == num(1.5)
    ));
}

#[test]
fn beliefs_are_filtered_by_type() {
    let all = [
        belief(1, MemoryType::Fact),
        belief(2, MemoryType::Working),
        belief(3, MemoryType::Working),
    ];
    let ids = |v: Vec<Belief>| v.iter().map(|b| b.id).collect::<Vec<_>>();
    assert_eq!(ids(filter_by_type(&all, Some(MemoryType::Working))), vec![2, 3]);
    assert_eq!(ids(filter_by_type(&all, None)), vec![1, 2, 3]);
    assert!(filter_by_type(&all, Some(MemoryType::Experiential)).is_empty());
}

#[test]
fn grounding_stops_at_the_threshold() {
    let c = [(1, num(0.95)), (2, num(0.8)), (3, num(0.7999999999999999)), (4, num(0.9))];
    assert_eq!(similar_enough(&c), vec![(1, num(0.95)), (2, num(0.8))]);
    assert!(similar_enough(&[(1, num(-1.0))]).is_empty());
    // What is no number is not below the threshold.
    assert_eq!(similar_enough(&[(1, num(f64::NAN))]).len(), 1);
}

#[test]
fn projects_have_to_go_together() {
    let p = Some("p".to_string());
    let q = Some("q".to_string());
    assert!(compatible_projects(&p, &p.clone()));
    assert!(!compatible_projects(&p, &q));
    assert!(compatible_projects(&p, &None));
    assert!(compatible_projects(&None, &q));
    assert!(compatible_projects(&None, &None));
    assert_eq!(grounding_weight(&p, &None, num(0.9)).unwrap(), Some(prob(0.9)));
    assert_eq!(grounding_weight(&p, &q, num(7.0)).unwrap(), None);
    assert!(grounding_weight(&p, &p.clone(), num(1.0000001)).is_err());
}

#[test]
fn the_strongest_come_first() {
    let e = [(1, num(0.2)), (2, num(0.9)), (3, num(0.2)), (4, num(-0.0)), (5, num(0.0)), (6, num(-3.0))];
    let order = |v: Vec<(u128, Binary64)>| v.iter().map(|x| x.0).collect::<Vec<_>>();
    assert_eq!(order(strongest(&e, 0)), vec![2, 1, 3, 4, 5, 6]);
    assert_eq!(order(strongest(&e, 2)), vec![2, 1]);
    assert_eq!(order(strongest(&e, 9)).len(), 6);
    let rows = [(7, 1, num(0.1)), (8, 2, num(0.5)), (7, 3, num(0.4))];
    assert_eq!(order(pick_grounds(&rows, 7, 0)), vec![3, 1]);
    assert_eq!(order(pick_grounds(&rows, 7, 1)), vec![3]);
    assert!(pick_grounds(&rows, 9, 0).is_empty());
}

#[test]
fn beliefs_are_joined_with_their_passages() {
    let beliefs = vec![
        belief(1, MemoryType::Fact),
        belief(2, MemoryType::Fact),
        belief(3, MemoryType::Fact),
    ];
    let rows = [
        (1, 10, num(0.5)),
        (1, 11, num(0.9)),
        (2, 10, num(0.7)),
        (1, 12, num(0.6)),
        (2, 99, num(1.0)),
    ];
    let plan = plan_grounds(&beliefs, &rows, 2);
    assert_eq!(plan[0], vec![(11, num(0.9)), (12, num(0.6))]);
    assert_eq!(plan[1], vec![(99, num(1.0)), (10, num(0.7))]);
    assert!(plan[2].is_empty());
    assert_eq!(chunks_to_fetch(&plan), vec![11, 12, 99, 10]);
    let chunks: HashMap<u128, DocumentChunk> = [10u128, 11, 12]
        .into_iter()
        .map(|i| (i, chunk(i, &format!("  passage {i}\n"), None)))
        .collect();
    let r = ground_beliefs(&beliefs, &plan, &chunks);
    assert_eq!(r.len(), 3);
    assert_eq!(r[0].belief.id, 1);
    assert_eq!(r[0].evidence[0].snippet, "passage 11");
    assert_eq!(r[0].evidence[0].weight, num(0.9));
    assert_eq!(r[0].evidence[0].document_path, "/11.md");
    assert_eq!(r[0].evidence[0].section_path, vec!["H"]);
    // A missing chunk is left out; a shared one keeps the weight of its edge.
    assert_eq!(r[1].evidence.len(), 1);
    assert_eq!((r[1].evidence[0].chunk_id, r[1].evidence[0].weight), (10, num(0.7)));
    assert!(r[2].evidence.is_empty());
    assert_eq!(collect_evidence(&[(11, num(0.1)), (5, num(0.2))], &chunks).len(), 1);
}

#[test]
fn document_queries_are_answered_with_the_parent() {
    let chunks: HashMap<u128, DocumentChunk> = [
        (1, chunk(1, "one", None)),
        (2, chunk(2, "two", Some(1))),
        (3, chunk(3, "three", Some(77))),
    ]
    .into_iter()
    .collect();
    let r = answer_document_query(&[2, 50, 3, 1], &chunks);
    assert_eq!(r.len(), 3);
    assert_eq!(r[0].id, format_id(2));
    assert_eq!(r[0].content, "two");
    assert_eq!(r[0].parent_content.as_deref(), Some("one"));
    assert_eq!(r[1].parent_content, None);
    assert_eq!(r[2].document_path, "/1.md");
}
