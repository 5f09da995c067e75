use std::collections::HashMap;

use mimir::binary32::Binary32;
use mimir::binary64::Binary64;
use mimir::fusion::weighted_rrf;
use mimir::graph::{Belief, MemoryType};
use mimir::retrieval::{
    rank_by_lowered_terms, rank_by_terms, vector_pool, without_working, Expansion,
};
use mimir::time::Timestamp;

fn num(v: f64) -> Binary64 {
    Binary64 { bits: v.to_bits() }
}

fn belief(id: u128, content: &str, p: f64) -> Belief {
    let at = Timestamp::new(0, 0).unwrap();
    Belief::created(id, at, content.to_string(), num(p), num(0.5)).unwrap()
}

fn ids(beliefs: &[Belief]) -> Vec<u128> {
    beliefs.iter().map(|b| b.id).collect()
}

#[test]
fn fusion_sums_reciprocal_ranks() {
    let a: Vec<u128> = vec![1, 2, 3, 1];
    let b: Vec<u128> = vec![3, 4];
    let w = |v: f32| Binary32 { bits: v.to_bits() };
    let got = weighted_rrf(&[(&a, w(1.0)), (&b, w(0.3)), (&[], w(0.5))]);
    let mut want: HashMap<u128, f32> = HashMap::new();
    for (list, weight) in [(&a, 1.0f32), (&b, 0.3)] {
        for (rank, id) in list.iter().enumerate() {
            *want.entry(*id).or_insert(0.0) += weight / (60.0 + rank as f32);
        }
    }
    assert_eq!(got.len(), want.len());
    for (id, s) in &want {
        assert_eq!(got[id].bits, s.to_bits());
    }
}

#[test]
fn more_terms_come_first_and_ties_go_by_probability() {
    let all = vec![
        belief(1, "Rust compiler", 0.2),
        belief(2, "the RUST borrow checker", 0.9),
        belief(3, "python", 0.9),
        belief(4, "rust borrow", 0.3),
        belief(5, "Rust book", 0.9),
    ];
    assert_eq!(rank_by_terms(&all, "rust BORROW"), vec![2, 4, 5, 1]);
    assert_eq!(rank_by_terms(&all, ""), Vec::<u128>::new());
    assert_eq!(rank_by_terms(&all, " \t "), Vec::<u128>::new());
}

#[test]
fn a_repeated_term_counts_once() {
    let all = vec![belief(1, "foo", 0.9), belief(2, "bar baz", 0.1)];
    assert_eq!(rank_by_terms(&all, "foo foo foo bar baz"), vec![2, 1]);
}

#[test]
fn terms_are_looked_for_in_lower_case() {
    let all = vec![belief(1, "\u{c9}T\u{c9}", 0.9)];
    assert_eq!(rank_by_terms(&all, "\u{c9}t\u{e9}"), vec![1]);
    let texts = vec!["\u{c9}T\u{c9}".to_string()];
    assert_eq!(rank_by_lowered_terms(&all, "\u{e9}t\u{e9}", &texts), Vec::<u128>::new());
}

#[test]
fn working_memory_is_left_out() {
    let w = belief(1, "scratch", 0.9).with_memory_type(MemoryType::Working);
    let f = belief(2, "fact", 0.1);
    assert_eq!(ids(&without_working(&[w.clone(), f.clone()])), vec![2]);
    let mut e = Expansion::start(&vec![w.clone(), f], vec![1, 2], vec![1], false);
    assert_eq!(e.next(), Some(2));
    e = e.receive(&[w]);
    assert_eq!(e.next(), None);
    assert_eq!(ids(&e.ranked(0, None)), vec![2]);
}

#[test]
fn pools_are_larger_than_the_limit() {
    assert_eq!(vector_pool(0), 50);
    assert_eq!(vector_pool(1), 20);
    assert_eq!(vector_pool(5), 20);
    assert_eq!(vector_pool(6), 24);
}

#[test]
fn a_shallow_search_asks_each_start_once() {
    let all = vec![belief(1, "a", 0.5), belief(2, "b", 0.5), belief(3, "c", 0.5)];
    let mut e = Expansion::start(&all, vec![2], vec![1, 2, 9], false);
    assert_eq!(e.next(), Some(2));
    e = e.receive(&[belief(3, "c", 0.5), belief(7, "d", 0.5)]);
    assert_eq!(e.next(), Some(1));
    e = e.receive(&[belief(7, "d", 0.5), belief(8, "e", 0.5)]);
    assert_eq!(e.next(), None);
    let mut found = ids(&e.ranked(0, None));
    found.sort();
    assert_eq!(found, vec![1, 2, 3, 7, 8]);
}

#[test]
fn a_deep_search_goes_on_breadth_first() {
    let all = vec![belief(1, "a", 0.5), belief(2, "b", 0.5)];
    let mut e = Expansion::start(&all, vec![1, 2], vec![], true);
    let mut asked = Vec::new();
    let graph: HashMap<u128, Vec<u128>> =
        [(1, vec![10, 11, 2]), (10, vec![12]), (11, vec![12, 1]), (12, vec![]), (2, vec![13, 10])]
            .into_iter()
            .collect();
    while let Some(id) = e.next() {
        asked.push(id);
        let next: Vec<Belief> = graph
            .get(&id)
            .cloned()
            .unwrap_or_default()
            .into_iter()
            .map(|i| belief(i, "x", 0.5))
            .collect();
        e = e.receive(&next);
    }
    assert_eq!(asked, vec![1, 10, 11, 12, 2, 13]);
}

/// The final ranking in plain floating point, for comparison.
fn plain_ranking(
    found: &[Belief],
    vector: &[u128],
    token: &[u128],
    prefer: Option<MemoryType>,
    limit: usize,
) -> Vec<u128> {
    let p = |b: &Belief| f64::from_bits(b.probability.value().bits);
    let mut prior: Vec<&Belief> = found.iter().collect();
    prior.sort_by(|a, b| p(b).partial_cmp(&p(a)).unwrap());
    let prior: Vec<u128> = prior.iter().map(|b| b.id).collect();
    let types: Vec<u128> = match prefer {
        Some(t) => {
            let (mut x, mut y) = (Vec::new(), Vec::new());
            for b in found {
                if b.memory_type == t {
                    x.push(b.id)
                } else {
                    y.push(b.id)
                }
            }
            x.append(&mut y);
            x
        }
        None => Vec::new(),
    };
    let mut scores: HashMap<u128, f32> = HashMap::new();
    for (list, w) in [
        (vector, 1.0f32),
        (token, 0.3),
        (prior.as_slice(), 0.1),
        (types.as_slice(), 0.5),
    ] {
        for (rank, id) in list.iter().enumerate() {
            *scores.entry(*id).or_insert(0.0) += w / (60.0 + rank as f32);
        }
    }
    let mut sorted: Vec<&Belief> = found.iter().collect();
    sorted.sort_by(|a, b| scores[&b.id].partial_cmp(&scores[&a.id]).unwrap());
    let mut r: Vec<u128> = sorted.iter().map(|b| b.id).collect();
    if limit > 0 {
        r.truncate(limit);
    }
    r
}

#[test]
fn ranking_agrees_with_plain_arithmetic() {
    let mut state = 88172645463325252u64;
    let mut next = || {
        state ^= state << 13;
        state ^= state >> 7;
        state ^= state << 17;
        state
    };
    for round in 0..40 {
        let n = 1 + (next() % 12) as u128;
        let all: Vec<Belief> = (0..n)
            .map(|i| {
                let t = match next() % 2 {
                    0 => MemoryType::Fact,
                    _ => MemoryType::Experiential,
                };
                belief(i, "x", (next() % 5) as f64 / 4.0).with_memory_type(t)
            })
            .collect();
        let token: Vec<u128> = (0..n).filter(|_| next() % 2 == 0).collect();
        let mut vector: Vec<u128> = (0..n).filter(|_| next() % 2 == 0).collect();
        vector.reverse();
        let prefer = match round % 3 {
            0 => None,
            1 => Some(MemoryType::Experiential),
            _ => Some(MemoryType::Working),
        };
        let limit = (next() % 4) as usize;
        let e = Expansion::start(&all, token.clone(), vector.clone(), false);
        let got = ids(&e.ranked(limit, prefer));
        let found = e.ranked(0, None);
        let mut order = Vec::new();
        for id in token.iter().chain(vector.iter()) {
            if !order.contains(id) {
                order.push(*id);
            }
        }
        let in_order: Vec<Belief> = order
            .iter()
            .map(|i| found.iter().find(|b| b.id == *i).unwrap().clone())
            .collect();
        assert_eq!(got, plain_ranking(&in_order, &vector, &token, prefer, limit));
        if limit > 0 {
            assert!(got.len() <= limit);
        }
    }
}

#[test]
fn similarity_leads_the_ranking() {
    let all = vec![belief(1, "certain", 1.0), belief(2, "similar", 0.1)];
    let e = Expansion::start(&all, vec![1], vec![2], false);
    assert_eq!(ids(&e.ranked(0, None)), vec![2, 1]);
}

#[test]
fn a_preferred_type_breaks_ties() {
    let all = vec![
        belief(1, "x", 0.5),
        belief(2, "x", 0.5).with_memory_type(MemoryType::Experiential),
    ];
    let e = Expansion::start(&all, vec![1, 2], vec![], false);
    assert_eq!(ids(&e.ranked(0, None)), vec![1, 2]);
    assert_eq!(ids(&e.ranked(0, Some(MemoryType::Experiential))), vec![2, 1]);
}

#[test]
fn nothing_found_is_nothing_answered() {
    let all = vec![belief(1, "x", 0.5)];
    let e = Expansion::start(&all, vec![], vec![5], false);
    assert_eq!(e.next(), None);
    assert!(e.ranked(0, None).is_empty());
}

#[test]
fn a_search_in_a_cycle_ends() {
    let all = vec![belief(1, "a", 0.5), belief(2, "b", 0.5), belief(3, "c", 0.5)];
    let mut e = Expansion::start(&all, vec![1], vec![], true);
    let mut asked = Vec::new();
    while let Some(id) = e.next() {
        asked.push(id);
        assert!(asked.len() <= all.len());
        let neighbour = all[(id % 3) as usize].clone();
        e = e.receive(&[neighbour]);
    }
    assert_eq!(asked, vec![1, 2, 3]);
    assert_eq!(ids(&e.ranked(0, None)).len(), 3);
}

#[test]
fn fusion_takes_any_weight() {
    let a: Vec<u128> = vec![1, 2, 3];
    let b: Vec<u128> = vec![3, 1, 4];
    let w = |v: f32| Binary32 { bits: v.to_bits() };
    for (x, y) in [(-1.0f32, 0.3f32), (0.5, -0.5), (f32::INFINITY, f32::NEG_INFINITY), (f32::NAN, 1.0), (-0.0, 0.0)] {
        let got = weighted_rrf(&[(&a, w(x)), (&b, w(y))]);
        let mut want: HashMap<u128, f32> = HashMap::new();
        for (list, weight) in [(&a, x), (&b, y)] {
            for (rank, id) in list.iter().enumerate() {
                *want.entry(*id).or_insert(0.0) += weight / (60.0 + rank as f32);
            }
        }
        assert_eq!(got.len(), want.len());
        for (id, s) in &want {
            let g = f32::from_bits(got[id].bits);
            assert!(g == *s || g.is_nan() && s.is_nan(), "{id}: {g} for {s}");
        }
    }
}
