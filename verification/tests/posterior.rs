use std::collections::HashMap;

use mimir::binary64::Binary64;
use mimir::graph::{
    beta_to_pc, coupled_alpha, Belief, EdgeType, GraphError, MemoryType, Probability,
};
use mimir::inference::{EdgeTuple, InferenceEngine};
use mimir::posterior::{decay_count, ground_retention, Counts};
use mimir::retrieval::{rank_by_terms, Expansion};
use mimir::service::{external_means_from, strip_source_means};
use mimir::time::Timestamp;

fn num(v: f64) -> Binary64 {
    Binary64 { bits: v.to_bits() }
}

fn float(v: Binary64) -> f64 {
    f64::from_bits(v.bits)
}

fn prob(v: f64) -> Probability {
    Probability::new(num(v)).unwrap()
}

fn val(p: Probability) -> f64 {
    float(p.value())
}

fn belief(id: u128, p: f64, c: f64) -> Belief {
    let at = Timestamp::new(0, 0).unwrap();
    Belief::created(id, at, format!("belief {id}"), num(p), num(c)).unwrap()
}

fn edge(from: u128, to: u128, t: EdgeType, w: f64) -> EdgeTuple {
    (from, to, t, prob(w))
}

/// The belief after its counts were written and read again.
fn stored(b: &Belief, alpha: Binary64, beta: Binary64) -> Belief {
    Belief::from_stored(
        b.id,
        b.content.clone(),
        alpha,
        beta,
        b.alpha0,
        b.beta0,
        b.created_at,
        b.last_activated_at,
        b.memory_type,
        b.project.clone(),
    )
    .unwrap()
}

fn rewritten(b: &Belief, updates: &[(u128, Counts)]) -> Belief {
    match updates.iter().find(|(id, _)| *id == b.id) {
        Some((_, (alpha, beta))) => stored(b, *alpha, *beta),
        None => b.clone(),
    }
}

#[test]
fn test_intervention_is_read_only() {
    let b = belief(2, 0.4, 0.9);
    let edges = [edge(1, 2, EdgeType::Causes, 0.5)];
    let engine = InferenceEngine::new();
    let updates = engine
        .project_evidence(1, prob(1.0), &[b.clone()], &edges, &HashMap::new())
        .unwrap();
    assert_eq!(updates.len(), 1);
    assert_eq!(updates[0].0, 2);
    let projected = val(updates[0].1);
    assert!(projected > 0.4);
    assert!((projected - 0.406_586).abs() < 1e-4, "got {projected}");
    assert!((val(b.probability) - 0.4).abs() < 1e-9);
}

#[test]
fn test_intervention_rejects_out_of_range_value() {
    assert!(Probability::new(num(1.5)).is_err());
}

#[test]
fn test_propagate_preserves_out_of_subgraph_evidence() {
    let (x, y, t) = (belief(1, 0.9, 0.5), belief(2, 0.9, 0.5), belief(3, 0.3, 0.5));
    let alpha0 = float(t.alpha);
    let incoming = [
        (1, 3, EdgeType::Supports, prob(1.0), x.probability),
        (2, 3, EdgeType::Supports, prob(1.0), y.probability),
    ];
    let edges = strip_source_means(&incoming);
    let engine = InferenceEngine::new();
    let from_x = engine
        .propagate_evidence(&x, &[t.clone()], &edges, &external_means_from(&incoming, &[3, 1]))
        .unwrap();
    let after_x = rewritten(&t, &from_x);
    assert!(float(after_x.alpha) > alpha0 + 1e-9);
    let from_y = engine
        .propagate_evidence(
            &y,
            &[after_x.clone()],
            &edges,
            &external_means_from(&incoming, &[3, 2]),
        )
        .unwrap();
    let after_y = rewritten(&after_x, &from_y);
    assert!(float(after_y.alpha) >= float(after_x.alpha) - 1e-9);
    assert!(float(after_y.alpha) > alpha0 + 1e-9);
    assert_eq!(float(after_y.alpha), alpha0 + 0.9 * 4.0 + 0.9 * 4.0);
}

#[test]
fn test_bare_defeat_lowers_target() {
    let (seed, t) = (belief(1, 0.9, 0.9), belief(2, 0.6, 0.5));
    let updates = InferenceEngine::new()
        .propagate_evidence(
            &seed,
            &[t.clone()],
            &[edge(1, 2, EdgeType::Defeats, 1.0)],
            &HashMap::new(),
        )
        .unwrap();
    let after = rewritten(&t, &updates);
    assert!(float(after.beta) > float(t.beta) + 1e-9);
    assert!(val(after.probability) < val(t.probability) - 1e-9);
    assert_eq!(float(after.beta), float(t.beta) + 0.9 * 4.0);
    assert_eq!(after.alpha, t.alpha);
}

#[test]
fn test_intervene_counts_out_of_set_cocause() {
    let (m, x) = (belief(2, 0.3, 0.9), belief(3, 0.95, 0.9));
    let edges = [edge(1, 2, EdgeType::Causes, 0.5), edge(3, 2, EdgeType::Causes, 0.5)];
    let engine = InferenceEngine::new();
    let external = HashMap::from([(3, x.probability)]);
    let with = engine
        .project_evidence(1, prob(1.0), &[m.clone()], &edges, &external)
        .unwrap();
    let without = engine
        .project_evidence(1, prob(1.0), &[m], &edges[..1], &HashMap::new())
        .unwrap();
    assert!(val(with[0].1) > val(without[0].1) + 1e-9);
}

#[test]
fn test_add_evidence_raises_alpha() {
    let b = belief(1, 0.7, 0.8);
    let after = stored(&b, coupled_alpha(b.alpha, prob(0.8)), b.beta);
    assert!(float(after.alpha) > float(b.alpha));
    assert_eq!(after.beta, b.beta);
}

#[test]
fn test_evidence_does_not_perturb_propagation() {
    let (a, b) = (belief(1, 0.8, 0.9), belief(2, 0.3, 0.8));
    let edges = [edge(1, 2, EdgeType::Supports, 0.5)];
    let engine = InferenceEngine::new();
    let bare = engine
        .propagate_evidence(&a, &[b.clone()], &edges, &HashMap::new())
        .unwrap();
    assert!(!bare.is_empty());
    // A grounded belief has another count, from which nothing is derived.
    let grounded = stored(&b, coupled_alpha(b.alpha, prob(0.9)), b.beta);
    let overlay = engine
        .propagate_evidence(&a, &[grounded], &edges, &HashMap::new())
        .unwrap();
    assert_eq!(bare, overlay);
}

#[test]
fn test_update_belief_beta_round_trips_mean_and_strength() {
    let got = stored(&belief(1, 0.5, 0.5), num(90.0), num(10.0));
    assert!((float(got.alpha) - 90.0).abs() < 1e-6);
    assert!((float(got.beta) - 10.0).abs() < 1e-6);
    assert!((val(got.probability) - 0.9).abs() < 1e-9);
    assert_eq!(val(beta_to_pc(got.alpha, got.beta).1), (100.0 - 2.0) / 198.0);
}

fn defeat_of(p: (f64, f64)) -> (Vec<(u128, u128, Timestamp)>, Belief) {
    let defeated = stored(&belief(2, 0.9, 0.9), num(p.0), num(p.1));
    (vec![(1, 2, Timestamp::new(1_000, 0).unwrap())], defeated)
}

#[test]
fn test_sweep_expired_defeated_deletes_low_prob_past_grace() {
    let (edges, b) = defeat_of((1.0, 99.0));
    let now = Timestamp::new(1_000, 1).unwrap();
    let known = HashMap::from([(2, &b)]);
    let found = InferenceEngine::new().find_expired_defeated(&edges, &known, now, num(0.3), 0);
    assert_eq!(found, vec![2]);
}

#[test]
fn test_sweep_expired_defeated_keeps_within_grace_period() {
    let (edges, b) = defeat_of((1.0, 99.0));
    let now = Timestamp::new(1_000, 1).unwrap();
    let known = HashMap::from([(2, &b)]);
    let engine = InferenceEngine::new();
    let found = engine.find_expired_defeated(&edges, &known, now, num(0.3), 24 * 60);
    assert!(found.is_empty());
}

#[test]
fn test_sweep_expired_defeated_keeps_above_threshold() {
    let (edges, b) = defeat_of((99.0, 1.0));
    let now = Timestamp::new(1_000, 1).unwrap();
    let known = HashMap::from([(2, &b)]);
    let found = InferenceEngine::new().find_expired_defeated(&edges, &known, now, num(0.3), 0);
    assert!(found.is_empty());
}

#[test]
fn test_query_relevant_excludes_working_from_candidate_pool() {
    let at = Timestamp::new(0, 0).unwrap();
    let make = |id: u128| {
        Belief::created(id, at, "factterm 7c1d".to_string(), num(0.6), num(0.6)).unwrap()
    };
    let all = vec![make(1), make(2).with_memory_type(MemoryType::Working)];
    let ranked = rank_by_terms(&all, "factterm 7c1d");
    let mut search = Expansion::start(&all, ranked, vec![], true);
    while search.next().is_some() {
        search = search.receive(&[]);
    }
    let results = search.ranked(0, None);
    assert!(results.iter().any(|b| b.id == 1));
    assert!(!results.iter().any(|b| b.id == 2));
}

#[test]
fn test_query_relevant_excludes_working_from_graph_expansion() {
    let at = Timestamp::new(0, 0).unwrap();
    let seed = Belief::created(1, at, "seedterm 9b".to_string(), num(0.6), num(0.6)).unwrap();
    let neighbour = belief(2, 0.6, 0.6).with_memory_type(MemoryType::Working);
    let all = vec![seed, neighbour.clone()];
    let ranked = rank_by_terms(&all, "seedterm 9b");
    let mut search = Expansion::start(&all, ranked, vec![], true);
    while let Some(id) = search.next() {
        search = if id == 1 {
            search.receive(&[neighbour.clone()])
        } else {
            search.receive(&[])
        };
    }
    let results = search.ranked(0, None);
    assert_eq!(results.len(), 1);
    assert_eq!(results[0].id, 1);
}

#[test]
fn propagating_again_changes_nothing() {
    let seed = belief(1, 0.8, 0.5);
    let all = [belief(2, 0.5, 0.2), belief(3, 0.4, 0.1), belief(4, 0.7, 0.9)];
    let edges = [
        edge(1, 3, EdgeType::Supports, 0.9),
        edge(3, 2, EdgeType::Causes, 0.7),
        edge(2, 4, EdgeType::Defeats, 1.0),
        edge(2, 3, EdgeType::Contradicts, 1.0),
    ];
    let engine = InferenceEngine::new();
    let first = engine
        .propagate_evidence(&seed, &all, &edges, &HashMap::new())
        .unwrap();
    assert_eq!(first.iter().map(|u| u.0).collect::<Vec<_>>(), vec![2, 3, 4]);
    let after: Vec<Belief> = all.iter().map(|b| rewritten(b, &first)).collect();
    let second = engine
        .propagate_evidence(&seed, &after, &edges, &HashMap::new())
        .unwrap();
    assert!(second.is_empty());
}

/// The same derivation in plain arithmetic.
fn plain(
    seed: (u128, f64),
    all: &[Belief],
    edges: &[EdgeTuple],
    external: &HashMap<u128, f64>,
) -> Vec<(u128, (f64, f64))> {
    let mut base = external.clone();
    for b in all {
        base.insert(b.id, val(b.probability));
    }
    base.insert(seed.0, seed.1);
    let mut order: Vec<&Belief> = all.iter().filter(|b| b.id != seed.0).collect();
    order.sort_by_key(|b| b.id);
    let derive = |b: &Belief, means: &HashMap<u128, f64>| {
        let (mut alpha, mut beta) = (float(b.alpha0), float(b.beta0));
        for (from, to, t, w) in edges {
            if *to == b.id && base.contains_key(from) {
                let added = val(*w) * means[from] * 4.0;
                match t {
                    EdgeType::Supports | EdgeType::Causes => alpha += added,
                    EdgeType::Defeats => beta += added,
                    EdgeType::Contradicts => {}
                }
            }
        }
        (alpha, beta)
    };
    let mut means = base.clone();
    for _ in 0..50 {
        let mut moved = 0.0f64;
        for b in &order {
            let (alpha, beta) = derive(b, &means);
            let mean = alpha / (alpha + beta);
            moved = moved.max((mean - means[&b.id]).abs());
            means.insert(b.id, mean);
        }
        if moved == 0.0 {
            break;
        }
    }
    let mut out = Vec::new();
    for b in &order {
        let (alpha, beta) = derive(b, &means);
        if (alpha / (alpha + beta) - base[&b.id]).abs() > 1e-9 {
            out.push((b.id, (alpha, beta)));
        }
    }
    out
}

#[test]
fn derivation_agrees_with_plain_arithmetic() {
    let types = [
        EdgeType::Supports,
        EdgeType::Defeats,
        EdgeType::Causes,
        EdgeType::Contradicts,
    ];
    let mut state: u64 = 0x1234_5678_9ABC_DEF1;
    let mut next = move || {
        state ^= state << 13;
        state ^= state >> 7;
        state ^= state << 17;
        (state >> 11) as f64 / (1u64 << 53) as f64
    };
    for _ in 0..60 {
        let n = 2 + (next() * 6.0) as u128;
        let seed = belief(1, next(), next());
        let all: Vec<Belief> = (2..2 + n).map(|id| belief(id, next(), next())).collect();
        let external: HashMap<u128, f64> = (100..103).map(|id| (id, next())).collect();
        let edges: Vec<EdgeTuple> = (0..12)
            .map(|_| {
                let from = match (next() * 4.0) as u32 {
                    0 => 1,
                    1 => 100 + (next() * 5.0) as u128,
                    _ => 2 + (next() * n as f64) as u128,
                };
                let to = 2 + (next() * n as f64) as u128;
                edge(from, to, types[(next() * 4.0) as usize], next())
            })
            .collect();
        let outside: HashMap<u128, Probability> =
            external.iter().map(|(id, p)| (*id, prob(*p))).collect();
        let got = InferenceEngine::new()
            .propagate_evidence(&seed, &all, &edges, &outside)
            .unwrap();
        let got: Vec<(u128, (f64, f64))> = got
            .into_iter()
            .map(|(id, (a, b))| (id, (float(a), float(b))))
            .collect();
        assert_eq!(got, plain((1, val(seed.probability)), &all, &edges, &external));
    }
}

#[test]
fn priors_that_are_no_counts_are_refused() {
    let mut b = belief(2, 0.5, 0.5);
    b.beta0 = num(-1.0);
    let r = InferenceEngine::new().propagate_evidence(&belief(1, 0.5, 0.5), &[b], &[], &HashMap::new());
    assert!(matches!(r, Err(GraphError::CountOutOfRange(v)) if v == num(-1.0)));
}

#[test]
fn counts_age_toward_one() {
    for (count, retention) in [(72.08, 0.9), (0.25, 0.5), (1.0, 0.3), (0.0, 0.99), (1e300, 0.7)] {
        let got = float(decay_count(num(count), prob(retention)));
        assert_eq!(got, 1.0 + retention * (count - 1.0));
    }
    assert_eq!(float(decay_count(num(40.0), prob(0.0))), 1.0);
    assert_eq!(float(decay_count(num(40.0), prob(1.0))), 40.0);
}

#[test]
fn time_ages_all_but_experience() {
    let fact = stored(&belief(1, 0.5, 0.5), num(90.0), num(10.0));
    let lesson = stored(&belief(2, 0.5, 0.5), num(90.0), num(10.0))
        .with_memory_type(MemoryType::Experiential);
    let fresh = stored(&belief(3, 0.5, 0.5), num(90.0), num(10.0));
    let updates = InferenceEngine::new()
        .decay_evidence(&[fact, lesson, fresh], &[prob(0.5), prob(0.5), prob(1.0)], &HashMap::new())
        .unwrap();
    assert_eq!(updates, vec![(1, (num(45.5), num(5.5)))]);
}

#[test]
fn aged_counts_have_to_be_counts() {
    let mut b = belief(1, 0.5, 0.5);
    b.alpha = num(f64::INFINITY);
    let r = InferenceEngine::new().decay_evidence(&[b.clone()], &[prob(0.5)], &HashMap::new());
    assert!(matches!(r, Err(GraphError::CountOutOfRange(_))));
    let lesson = b.with_memory_type(MemoryType::Experiential);
    let r = InferenceEngine::new().decay_evidence(&[lesson], &[prob(0.5)], &HashMap::new());
    assert!(r.unwrap().is_empty());
}

#[test]
fn a_second_propagation_reports_nothing() {
    // A chain, so that one pass in the order of identifiers is not enough.
    let seed = belief(100, 0.9, 0.9);
    let all: Vec<Belief> = (1..=20).map(|id| belief(id, 0.3, 0.01)).collect();
    let mut edges = vec![edge(100, 20, EdgeType::Supports, 0.9)];
    for id in 1..20 {
        edges.push(edge(id + 1, id, EdgeType::Causes, 1.0));
        edges.push(edge(id + 1, id, EdgeType::Defeats, 0.25));
    }
    let engine = InferenceEngine::new();
    let first = engine
        .propagate_evidence(&seed, &all, &edges, &HashMap::new())
        .unwrap();
    assert_eq!(first.len(), 20);
    let after: Vec<Belief> = all.iter().map(|b| rewritten(b, &first)).collect();
    let second = engine
        .propagate_evidence(&seed, &after, &edges, &HashMap::new())
        .unwrap();
    assert!(second.is_empty());
}

#[test]
fn a_count_does_not_go_beyond_what_it_was() {
    // One minus one minus this would be zero.
    let tiny = num(1e-20);
    assert_eq!(decay_count(tiny, prob(1.0)), tiny);
    assert_eq!(float(decay_count(num(7.25), prob(1.0))), 7.25);
}

#[test]
fn grounds_hold_counts() {
    for r in [0.0, 0.25, 0.9, 1.0] {
        assert_eq!(val(ground_retention(prob(r), num(0.0))), r);
    }
    assert_eq!(val(ground_retention(prob(0.5), num(1.0))), 0.75);
    assert_eq!(val(ground_retention(prob(0.0), num(3.0))), 0.75);
    let mut held = 0.5;
    for mass in [0.1, 0.5, 1.0, 2.5, 10.0, 1e6, 1e300] {
        let more = val(ground_retention(prob(0.5), num(mass)));
        assert!(held < more && more <= 1.0);
        held = more;
    }
}

#[test]
fn grounded_beliefs_resist_decay() {
    let bare = stored(&belief(1, 0.5, 0.5), num(90.0), num(10.0));
    let grounded = stored(&belief(2, 0.5, 0.5), num(90.0), num(10.0));
    let masses = HashMap::from([(2, num(1.0)), (7, num(9.0))]);
    let updates = InferenceEngine::new()
        .decay_evidence(&[bare, grounded.clone()], &[prob(0.5), prob(0.5)], &masses)
        .unwrap();
    assert_eq!(
        updates,
        vec![(1, (num(45.5), num(5.5))), (2, (num(67.75), num(7.75)))]
    );
    let r = InferenceEngine::new().decay_evidence(
        &[grounded],
        &[prob(0.5)],
        &HashMap::from([(2, num(-1.0))]),
    );
    assert!(matches!(r, Err(GraphError::CountOutOfRange(v)) if v == num(-1.0)));
}

#[test]
fn time_moves_means_toward_half_and_takes_weight() {
    for (alpha, beta) in [(90.0, 10.0), (1.0, 7.5), (3.0, 3.0), (1e9, 1.0), (1.25, 1e12)] {
        let before = beta_to_pc(num(alpha), num(beta)).0;
        for retention in [0.0, 0.1, 0.5, 0.99, 1.0] {
            let a = decay_count(num(alpha), prob(retention));
            let b = decay_count(num(beta), prob(retention));
            let after = beta_to_pc(a, b).0;
            assert!(float(a) + float(b) <= alpha + beta);
            let slack = 32.0 * 2f64.powi(-53);
            if alpha >= beta {
                assert!(0.5 <= val(after) && val(after) <= val(before) + slack);
            }
            if alpha <= beta {
                assert!(val(before) - slack <= val(after) && val(after) <= 0.5);
            }
        }
    }
}

#[test]
fn certain_support_adds_the_unit_each_time() {
    let seed = belief(1, 1.0, 1.0);
    let target = belief(2, 0.5, 0.0);
    let edges = vec![edge(1, 2, EdgeType::Supports, 1.0); 3];
    let updates = InferenceEngine::new()
        .propagate_evidence(&seed, &[target], &edges, &HashMap::new())
        .unwrap();
    assert_eq!(updates, vec![(2, (num(13.0), num(1.0)))]);
}

#[test]
fn order_of_evidence_shows_in_last_places_only() {
    let seed = belief(1, 0.7, 0.5);
    let target = belief(2, 0.3, 0.1);
    let edges: Vec<EdgeTuple> = (0..9)
        .map(|i| {
            let kind = if i % 3 == 0 { EdgeType::Defeats } else { EdgeType::Supports };
            edge(1, 2, kind, 0.1 + 0.07 * i as f64)
        })
        .collect();
    let derive = |edges: &[EdgeTuple]| {
        let r = InferenceEngine::new()
            .propagate_evidence(&seed, &[target.clone()], edges, &HashMap::new())
            .unwrap();
        (float(r[0].1 .0), float(r[0].1 .1))
    };
    let first = derive(&edges);
    for k in 1..edges.len() {
        let mut turned = edges.clone();
        turned.rotate_left(k);
        let (alpha, beta) = derive(&turned);
        let slack = 8.0 * 9.0 * 2f64.powi(-53);
        assert!((alpha - first.0).abs() <= slack * alpha);
        assert!((beta - first.1).abs() <= slack * beta);
    }
}

#[test]
fn counts_below_one_age_toward_half_too() {
    let place = 2f64.powi(-53);
    for (alpha, beta) in [(0.2, 1.8), (0.9, 0.1), (0.0, 0.5), (0.0, 0.0), (2.0, 1e-16), (1e-3, 50.0), (0.5, 0.5)] {
        let before = val(beta_to_pc(num(alpha), num(beta)).0);
        for retention in [0.0, 0.1, 0.5, 0.99, 1.0] {
            let a = decay_count(num(alpha), prob(retention));
            let b = decay_count(num(beta), prob(retention));
            let after = val(beta_to_pc(a, b).0);
            let total = float(a) + float(b);
            assert!(total <= (alpha + beta).max(2.0) * (1.0 + 16.0 * place));
            let slack = 32.0 * place * (total + 1.0);
            if alpha >= beta {
                assert!(0.5 <= after && after * total <= before * total + slack);
            }
            if alpha <= beta {
                assert!(after <= 0.5 && before * total <= after * total + slack);
            }
        }
    }
}

#[test]
fn any_finite_mass_resists_decay() {
    assert_eq!(val(ground_retention(prob(0.5), num(0.0))), 0.5);
    assert_eq!(val(ground_retention(prob(0.5), num(f64::MAX))), 1.0);
    let b = belief(4, 0.9, 0.9);
    let engine = InferenceEngine::new();
    let masses = HashMap::from([(4, num(1.5e308))]);
    assert!(engine.decay_evidence(&[b.clone()], &[prob(0.5)], &masses).unwrap().is_empty());
    let masses = HashMap::from([(4, num(f64::INFINITY))]);
    assert!(matches!(
        engine.decay_evidence(&[b], &[prob(0.5)], &masses),
        Err(GraphError::CountOutOfRange(v)) if v == num(f64::INFINITY)
    ));
}
