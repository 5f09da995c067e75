use std::collections::HashMap;

use mimir::binary64::Binary64;
use mimir::graph::{Belief, EdgeType, GraphError, MemoryType, Probability};
use mimir::inference::InferenceEngine;
use mimir::time::Timestamp;

fn num(v: f64) -> Binary64 {
    Binary64 { bits: v.to_bits() }
}

fn val(p: Probability) -> f64 {
    f64::from_bits(p.value().bits)
}

fn prob(v: f64) -> Probability {
    Probability::new(num(v)).unwrap()
}

fn engine() -> InferenceEngine {
    InferenceEngine::new()
}

fn belief(content: &str, probability: f64, confidence: f64) -> Belief {
    Belief::new(content.to_string(), num(probability), num(confidence)).unwrap()
}

fn decay(p: Probability, days: f64, factor: f64) -> Result<Probability, GraphError> {
    engine().apply_decay(p, num(factor.powf(days)))
}

fn find(updates: &[(u128, Probability)], id: u128) -> Option<f64> {
    updates.iter().find(|(i, _)| *i == id).map(|(_, p)| val(*p))
}

#[test]
fn test_attenuate_by_defeat() {
    let r = engine()
        .attenuate_by_defeat(prob(0.8), prob(0.5), prob(1.0))
        .unwrap();
    assert!((val(r) - 0.4).abs() < 1e-9, "got {}", val(r));
}

#[test]
fn test_attenuate_weight_zero_is_identity() {
    let r = engine()
        .attenuate_by_defeat(prob(0.7), prob(0.9), prob(0.0))
        .unwrap();
    assert!((val(r) - 0.7).abs() < 1e-12);
}

#[test]
fn test_attenuate_defeater_zero_is_identity() {
    let r = engine()
        .attenuate_by_defeat(prob(0.7), prob(0.0), prob(1.0))
        .unwrap();
    assert!((val(r) - 0.7).abs() < 1e-12);
}

#[test]
fn test_attenuate_full_defeat() {
    let r = engine()
        .attenuate_by_defeat(prob(0.8), prob(1.0), prob(1.0))
        .unwrap();
    assert!((val(r) - 0.0).abs() < 1e-12);
}

#[test]
fn test_attenuate_never_increases_concrete() {
    let r = engine()
        .attenuate_by_defeat(prob(0.6), prob(0.4), prob(0.5))
        .unwrap();
    assert!(val(r) <= 0.6 + 1e-12);
    assert!((val(r) - 0.48).abs() < 1e-9);
}

#[test]
fn test_boost_by_support() {
    let r = engine()
        .boost_by_support(prob(0.3), prob(0.8), prob(0.5))
        .unwrap();
    assert!((val(r) - 0.58).abs() < 1e-9, "got {}", val(r));
}

#[test]
fn test_boost_weight_zero_is_identity() {
    let r = engine()
        .boost_by_support(prob(0.4), prob(0.9), prob(0.0))
        .unwrap();
    assert!((val(r) - 0.4).abs() < 1e-12);
}

#[test]
fn test_boost_supporter_zero_is_identity() {
    let r = engine()
        .boost_by_support(prob(0.4), prob(0.0), prob(1.0))
        .unwrap();
    assert!((val(r) - 0.4).abs() < 1e-12);
}

#[test]
fn test_boost_target_at_one_stays_one() {
    let r = engine()
        .boost_by_support(prob(1.0), prob(0.9), prob(0.9))
        .unwrap();
    assert!((val(r) - 1.0).abs() < 1e-12);
}

#[test]
fn test_boost_never_decreases_concrete() {
    let r = engine()
        .boost_by_support(prob(0.5), prob(0.6), prob(0.7))
        .unwrap();
    assert!(val(r) >= 0.5 - 1e-12);
}

#[test]
fn test_apply_decay_zero_days() {
    let r = decay(prob(0.75), 0.0, 0.99).unwrap();
    assert!((val(r) - 0.75).abs() < 1e-9);
}

#[test]
fn test_apply_decay_one_day() {
    let r = decay(prob(0.75), 1.0, 0.99).unwrap();
    assert!((val(r) - 0.7425).abs() < 1e-9);
}

#[test]
fn test_apply_decay_factor_one_no_change() {
    let r = decay(prob(0.6), 30.0, 1.0).unwrap();
    assert!((val(r) - 0.6).abs() < 1e-12);
}

#[test]
fn test_apply_decay_factor_zero_gives_zero() {
    let r = decay(prob(0.8), 1.0, 0.0).unwrap();
    assert_eq!(val(r), 0.0);
}

#[test]
fn test_apply_decay_more_days_more_decay() {
    let r1 = decay(prob(0.9), 1.0, 0.9).unwrap();
    let r2 = decay(prob(0.9), 10.0, 0.9).unwrap();
    assert!(val(r2) < val(r1));
}

#[test]
fn test_is_contradicting_both_high() {
    let a = belief("A", 0.8, 0.9);
    let b = belief("B", 0.9, 0.8);
    assert!(engine().is_contradicting(&a, &b));
}

#[test]
fn test_is_contradicting_one_low() {
    let a = belief("A", 0.8, 0.9);
    let b = belief("B", 0.1, 0.8);
    assert!(!engine().is_contradicting(&a, &b));
}

#[test]
fn test_is_contradicting_exactly_one_not_contradicting() {
    let a = belief("A", 0.5, 0.5);
    let b = belief("B", 0.5, 0.5);
    assert!(!engine().is_contradicting(&a, &b));
}

#[test]
fn test_is_contradicting_just_above_one() {
    let a = belief("A", 0.6, 0.5);
    let b = belief("B", 0.5, 0.5);
    assert!(engine().is_contradicting(&a, &b));
}

#[test]
fn test_propagate_defeat_empty_downstream() {
    let seed = belief("seed", 0.9, 0.9);
    let result = engine().propagate_defeat(&seed, &[], &[]).unwrap();
    assert!(result.is_empty());
}

#[test]
fn test_propagate_defeat_single_defeat_edge_reduces_probability() {
    let seed = belief("seed", 0.8, 0.9);
    let target = belief("target", 0.7, 0.8);
    let w = prob(1.0);
    let edges = vec![(seed.id, target.id, EdgeType::Defeats, w)];
    let downstream = vec![target.clone()];

    let updates = engine()
        .propagate_defeat(&seed, &downstream, &edges)
        .unwrap();
    let new_prob = find(&updates, target.id);
    assert!(new_prob.is_some());
    assert!((new_prob.unwrap() - 0.14).abs() < 1e-9);
}

#[test]
fn test_propagate_defeat_single_support_edge_increases_probability() {
    let seed = belief("seed", 0.8, 0.9);
    let target = belief("target", 0.3, 0.8);
    let w = prob(0.5);
    let edges = vec![(seed.id, target.id, EdgeType::Supports, w)];
    let downstream = vec![target.clone()];

    let updates = engine()
        .propagate_defeat(&seed, &downstream, &edges)
        .unwrap();
    let new_prob = find(&updates, target.id);
    assert!(new_prob.is_some());
    assert!(new_prob.unwrap() > 0.3);
}

#[test]
fn test_intervene_ignores_incoming_edges_to_target() {
    let t = belief("T", 0.2, 0.9);
    let b = belief("B", 0.3, 0.9);
    let a_lo = belief("A", 0.1, 0.9);
    let a_hi = belief("A", 0.99, 0.9);
    let w = prob(0.5);
    let clamp = prob(1.0);
    let downstream = vec![b.clone()];

    let edges_lo = vec![
        (a_lo.id, t.id, EdgeType::Causes, w),
        (t.id, b.id, EdgeType::Causes, w),
    ];
    let edges_hi = vec![
        (a_hi.id, t.id, EdgeType::Causes, w),
        (t.id, b.id, EdgeType::Causes, w),
    ];

    let lo = engine()
        .intervene(t.id, clamp, &downstream, &edges_lo)
        .unwrap();
    let hi = engine()
        .intervene(t.id, clamp, &downstream, &edges_hi)
        .unwrap();

    let b_lo = find(&lo, b.id);
    let b_hi = find(&hi, b.id);
    assert!(b_lo.is_some(), "B should be updated through T");
    assert_eq!(
        b_lo, b_hi,
        "B's projection must not depend on A (parent of T)"
    );
    assert!((b_lo.unwrap() - 0.65).abs() < 1e-9);
}

#[test]
fn test_intervene_follows_only_causes_edges() {
    let t = belief("T", 0.2, 0.9);
    let b = belief("B", 0.3, 0.9);
    let w = prob(0.9);
    let clamp = prob(1.0);
    let downstream = vec![b.clone()];
    let edges = vec![(t.id, b.id, EdgeType::Supports, w)];

    let updates = engine()
        .intervene(t.id, clamp, &downstream, &edges)
        .unwrap();
    assert!(
        updates.iter().all(|(id, _)| *id != b.id),
        "SUPPORTS edge must not propagate under an intervention"
    );
}

#[test]
fn test_intervene_confounder_does_not_reach_associated_node() {
    let c = belief("C", 0.9, 0.9);
    let t = belief("T", 0.4, 0.9);
    let b = belief("B", 0.4, 0.9);
    let w = prob(0.8);
    let clamp = prob(1.0);
    let downstream = vec![b.clone()];
    let edges = vec![
        (c.id, t.id, EdgeType::Causes, w),
        (c.id, b.id, EdgeType::Causes, w),
    ];

    let updates = engine()
        .intervene(t.id, clamp, &downstream, &edges)
        .unwrap();
    assert!(
        updates.iter().all(|(id, _)| *id != b.id),
        "do(T) must not affect B when their only link is a common cause C"
    );
}

#[test]
fn test_detect_contradictions_empty_input() {
    let result = engine().detect_active_contradictions(&HashMap::new(), &[]);
    assert!(result.is_empty());
}

#[test]
fn test_detect_contradictions_filters_low_probs() {
    let a = belief("A", 0.3, 0.5);
    let b = belief("B", 0.4, 0.5);
    let beliefs: HashMap<u128, &Belief> = [(a.id, &a), (b.id, &b)].into_iter().collect();
    let pairs = vec![(a.id, b.id)];
    let result = engine().detect_active_contradictions(&beliefs, &pairs);
    assert!(result.is_empty());
}

#[test]
fn test_detect_contradictions_finds_active_pair() {
    let a = belief("A", 0.8, 0.9);
    let b = belief("B", 0.7, 0.9);
    let beliefs: HashMap<u128, &Belief> = [(a.id, &a), (b.id, &b)].into_iter().collect();
    let pairs = vec![(a.id, b.id)];
    let result = engine().detect_active_contradictions(&beliefs, &pairs);
    assert_eq!(result.len(), 1);
}

fn decay_all(
    beliefs: &[Belief],
    now: Timestamp,
    factor: f64,
) -> Result<Vec<(u128, Probability)>, GraphError> {
    let retained: Vec<Binary64> = engine()
        .idle_seconds(beliefs, now)
        .into_iter()
        .map(|s| num(factor.powf(s as f64 / 86400.0)))
        .collect();
    engine().decay_all(beliefs, &retained)
}

#[test]
fn test_decay_all_recently_activated_no_change() {
    let b = belief("fresh", 0.8, 0.9);
    let now = b.last_activated_at;
    let updates = decay_all(&[b], now, 0.99).unwrap();
    assert!(updates.is_empty());
}

#[test]
fn test_decay_all_old_belief_decays() {
    let mut b = belief("old", 0.9, 0.9);
    let now = b.last_activated_at;
    b.last_activated_at = Timestamp::new(now.secs() - 100 * 86_400, now.nanos()).unwrap();
    let updates = decay_all(&[b.clone()], now, 0.99).unwrap();
    assert_eq!(updates.len(), 1);
    let (_, new_conf) = updates[0];
    assert!(val(new_conf) < val(b.confidence));
    assert_eq!(val(new_conf), 0.9 * 0.99f64.powf(100.0));
}

#[test]
fn test_propagate_is_order_independent_on_reconvergent_graph() {
    let s = belief("S", 0.8, 0.9);
    let a = belief("A", 0.2, 0.9);
    let t = belief("T", 0.1, 0.9);
    let d = belief("D", 0.1, 0.9);
    let w = prob(1.0);
    let downstream = vec![a.clone(), t.clone(), d.clone()];

    let order1 = vec![
        (s.id, t.id, EdgeType::Supports, w),
        (s.id, a.id, EdgeType::Supports, w),
        (a.id, t.id, EdgeType::Supports, w),
        (t.id, d.id, EdgeType::Supports, w),
    ];
    let mut order2 = order1.clone();
    order2.reverse();

    let r1 = engine().propagate_defeat(&s, &downstream, &order1).unwrap();
    let r2 = engine().propagate_defeat(&s, &downstream, &order2).unwrap();

    assert_eq!(
        find(&r1, d.id),
        find(&r2, d.id),
        "D must not depend on edge order"
    );
    assert_eq!(
        find(&r1, t.id),
        find(&r2, t.id),
        "T must not depend on edge order"
    );
}

#[test]
fn test_propagate_converges_and_is_stable_on_cycle() {
    let s = belief("S", 0.9, 0.9);
    let a = belief("A", 0.2, 0.9);
    let b = belief("B", 0.2, 0.9);
    let w = prob(1.0);
    let edges = vec![
        (s.id, a.id, EdgeType::Supports, w),
        (a.id, b.id, EdgeType::Supports, w),
        (b.id, a.id, EdgeType::Supports, w),
    ];

    let r1 = engine()
        .propagate_defeat(&s, &[a.clone(), b.clone()], &edges)
        .unwrap();

    let mut a2 = a.clone();
    let mut b2 = b.clone();
    for (id, p) in &r1 {
        if *id == a.id {
            a2.probability = *p;
        }
        if *id == b.id {
            b2.probability = *p;
        }
    }
    let r2 = engine()
        .propagate_defeat(&s, &[a2.clone(), b2.clone()], &edges)
        .unwrap();

    let pa1 = find(&r1, a.id).unwrap();
    let pb1 = find(&r1, b.id).unwrap();
    let pa2 = find(&r2, a.id).unwrap_or(val(a2.probability));
    let pb2 = find(&r2, b.id).unwrap_or(val(b2.probability));

    assert!(
        (pa1 - pa2).abs() < 1e-9,
        "A not stable across calls: {pa1} vs {pa2}"
    );
    assert!(
        (pb1 - pb2).abs() < 1e-9,
        "B not stable across calls: {pb1} vs {pb2}"
    );
}

#[test]
fn test_propagate_multi_parent_noisy_or() {
    let s = belief("S", 0.8, 0.9);
    let a = belief("A", 0.2, 0.9);
    let b = belief("B", 0.2, 0.9);
    let t = belief("T", 0.1, 0.9);
    let w = prob(1.0);
    let edges = vec![
        (s.id, a.id, EdgeType::Supports, w),
        (s.id, b.id, EdgeType::Supports, w),
        (a.id, t.id, EdgeType::Supports, w),
        (b.id, t.id, EdgeType::Supports, w),
    ];
    let r = engine()
        .propagate_defeat(&s, &[a.clone(), b.clone(), t.clone()], &edges)
        .unwrap();
    let tp = find(&r, t.id).unwrap();
    assert!(
        (tp - 0.97696).abs() < 1e-6,
        "T should be the noisy-OR of its parents, got {tp}"
    );
}

fn grid() -> Vec<f64> {
    (0..=12).map(|i| i as f64 / 12.0).collect()
}

#[test]
fn prop_attenuate_result_in_range() {
    for &t in &grid() {
        for &d in &grid() {
            for &w in &grid() {
                let r = engine()
                    .attenuate_by_defeat(prob(t), prob(d), prob(w))
                    .unwrap();
                assert!(val(r) >= 0.0 && val(r) <= 1.0);
            }
        }
    }
}

#[test]
fn prop_attenuate_never_increases() {
    for &t in &grid() {
        for &d in &grid() {
            for &w in &grid() {
                let r = engine()
                    .attenuate_by_defeat(prob(t), prob(d), prob(w))
                    .unwrap();
                assert!(val(r) <= t);
                assert_eq!(val(r), t * (1.0 - w * d));
            }
        }
    }
}

#[test]
fn prop_boost_result_in_range() {
    for &t in &grid() {
        for &s in &grid() {
            for &w in &grid() {
                let r = engine().boost_by_support(prob(t), prob(s), prob(w)).unwrap();
                assert!(val(r) >= 0.0 && val(r) <= 1.0);
            }
        }
    }
}

#[test]
fn prop_boost_never_decreases() {
    for &t in &grid() {
        for &s in &grid() {
            for &w in &grid() {
                let r = engine().boost_by_support(prob(t), prob(s), prob(w)).unwrap();
                assert!(val(r) >= t);
                assert_eq!(val(r), (t + (1.0 - t) * w * s).clamp(0.0, 1.0));
            }
        }
    }
}

#[test]
fn prop_decay_result_in_range() {
    for &p in &grid() {
        for days in [0.0, 0.5, 1.0, 30.0, 365.0] {
            for &f in &grid() {
                let r = decay(prob(p), days, f).unwrap();
                assert!(val(r) >= 0.0 && val(r) <= 1.0);
            }
        }
    }
}

#[test]
fn prop_decay_never_increases() {
    for &p in &grid() {
        for days in [0.0, 0.5, 1.0, 30.0, 365.0] {
            for &f in &grid() {
                let r = decay(prob(p), days, f).unwrap();
                assert!(val(r) <= p);
            }
        }
    }
}

#[test]
fn prop_is_contradicting_high_sum() {
    for i in 0..=40 {
        for j in 0..=40 {
            let a = 0.5 + i as f64 / 80.0;
            let b = 0.5 + j as f64 / 80.0;
            let ba = belief("A", a, 0.5);
            let bb = belief("B", b, 0.5);
            assert_eq!(engine().is_contradicting(&ba, &bb), a + b > 1.0);
        }
    }
}

#[test]
fn sums_are_rounded_before_they_are_compared() {
    // One and half a unit in the last place is a tie and rounds to one.
    let tiny = f64::from_bits((1023 - 53) << 52);
    assert!(!engine().is_contradicting(&belief("A", 1.0, 0.5), &belief("B", tiny, 0.5)));
    let more = f64::from_bits(((1023 - 53) << 52) + 1);
    assert!(engine().is_contradicting(&belief("A", 1.0, 0.5), &belief("B", more, 0.5)));
}

/// Propagation as plain floating point, for comparison.
fn plain_propagation(
    seed: &Belief,
    downstream: &[Belief],
    edges: &[(u128, u128, EdgeType, Probability)],
) -> Vec<(u128, f64)> {
    let mut base: HashMap<u128, f64> = HashMap::new();
    for b in downstream {
        base.insert(b.id, val(b.probability));
    }
    base.insert(seed.id, val(seed.probability));
    let mut order: Vec<u128> = downstream.iter().map(|b| b.id).filter(|i| *i != seed.id).collect();
    order.sort();
    let mut now = base.clone();
    for _ in 0..50 {
        let mut most = 0.0f64;
        for v in &order {
            let incoming: Vec<_> = edges
                .iter()
                .filter(|e| e.1 == *v && base.contains_key(&e.0))
                .collect();
            let mut p = base[v];
            if !incoming.is_empty() {
                let (mut sc, mut df) = (1.0f64, 1.0f64);
                for e in incoming {
                    let s = now[&e.0];
                    match e.2 {
                        EdgeType::Supports | EdgeType::Causes => sc *= 1.0 - val(e.3) * s,
                        EdgeType::Defeats => df *= 1.0 - val(e.3) * s,
                        EdgeType::Contradicts => {}
                    }
                }
                p = 1.0 - (1.0 - p) * sc;
                p *= df;
            }
            let p = p.clamp(0.0, 1.0);
            most = most.max((p - now[v]).abs());
            now.insert(*v, p);
        }
        if most < 1e-9 {
            break;
        }
    }
    order
        .iter()
        .filter(|v| (now[v] - base[v]).abs() > 1e-9)
        .map(|v| (*v, now[v]))
        .collect()
}

#[test]
fn propagation_agrees_with_plain_arithmetic_to_the_last_bit() {
    let mut state = 0x9E37_79B9_7F4A_7C15u64;
    let mut next = || {
        state ^= state << 13;
        state ^= state >> 7;
        state ^= state << 17;
        state
    };
    for _ in 0..30 {
        let n = 2 + (next() % 7) as usize;
        let nodes: Vec<Belief> = (0..n)
            .map(|i| belief(&format!("n{i}"), (next() >> 11) as f64 / (1u64 << 53) as f64, 0.5))
            .collect();
        let mut edges = Vec::new();
        for _ in 0..(3 * n) {
            let a = (next() % n as u64) as usize;
            let b = (next() % n as u64) as usize;
            let t = match next() % 4 {
                0 => EdgeType::Supports,
                1 => EdgeType::Defeats,
                2 => EdgeType::Causes,
                _ => EdgeType::Contradicts,
            };
            let w = (next() >> 11) as f64 / (1u64 << 53) as f64;
            edges.push((nodes[a].id, nodes[b].id, t, prob(w)));
        }
        edges.push((77, nodes[1].id, EdgeType::Defeats, prob(1.0)));
        let r = engine()
            .propagate_defeat(&nodes[0], &nodes[1..], &edges)
            .unwrap();
        let got: Vec<(u128, f64)> = r.iter().map(|(i, p)| (*i, val(*p))).collect();
        assert_eq!(got, plain_propagation(&nodes[0], &nodes[1..], &edges));
    }
}

#[test]
fn only_downstream_beliefs_are_reported() {
    let s = belief("S", 0.9, 0.9);
    let a = belief("A", 0.2, 0.9);
    let w = prob(1.0);
    // The edge back into the seed has no effect: the seed is held fixed.
    let edges = vec![
        (s.id, a.id, EdgeType::Defeats, w),
        (a.id, s.id, EdgeType::Defeats, w),
    ];
    let r = engine()
        .propagate_defeat(&s, &[a.clone(), s.clone()], &edges)
        .unwrap();
    assert_eq!(r.len(), 1);
    assert_eq!(r[0].0, a.id);
}

#[test]
fn order_of_downstream_beliefs_is_irrelevant() {
    let s = belief("S", 0.9, 0.9);
    let a = belief("A", 0.2, 0.9);
    let b = belief("B", 0.4, 0.9);
    let edges = vec![
        (s.id, a.id, EdgeType::Supports, prob(0.5)),
        (a.id, b.id, EdgeType::Defeats, prob(0.7)),
        (b.id, a.id, EdgeType::Supports, prob(0.3)),
    ];
    let x = engine()
        .propagate_defeat(&s, &[a.clone(), b.clone()], &edges)
        .unwrap();
    let y = engine()
        .propagate_defeat(&s, &[b.clone(), a.clone()], &edges)
        .unwrap();
    assert_eq!(x, y);
    assert!(x[0].0 < x[1].0);
}

#[test]
fn nothing_changes_without_edges() {
    let s = belief("S", 0.9, 0.9);
    let a = belief("A", 0.1, 0.9);
    assert!(engine().propagate_defeat(&s, &[a], &[]).unwrap().is_empty());
}

#[test]
fn contradictions_need_both_beliefs() {
    let a = belief("A", 0.8, 0.9);
    let beliefs: HashMap<u128, &Belief> = [(a.id, &a)].into_iter().collect();
    assert!(engine()
        .detect_active_contradictions(&beliefs, &[(a.id, 5), (5, a.id)])
        .is_empty());
    // A belief above one half contradicts itself.
    assert_eq!(
        engine().detect_active_contradictions(&beliefs, &[(a.id, a.id)]),
        vec![(a.id, a.id)]
    );
}

#[test]
fn experience_does_not_decay() {
    let mut b = belief("lesson", 0.9, 0.9).with_memory_type(MemoryType::Experiential);
    let now = b.last_activated_at;
    b.last_activated_at = Timestamp::new(now.secs() - 1000 * 86_400, 0).unwrap();
    assert!(decay_all(&[b], now, 0.5).unwrap().is_empty());
}

#[test]
fn decay_refuses_what_is_no_number() {
    assert!(matches!(
        engine().apply_decay(prob(0.5), num(f64::NAN)),
        Err(GraphError::ProbabilityOutOfRange(_))
    ));
    assert!(engine().apply_decay(prob(0.0), num(f64::INFINITY)).is_err());
    assert_eq!(val(engine().apply_decay(prob(0.5), num(f64::INFINITY)).unwrap()), 1.0);
    assert_eq!(val(engine().apply_decay(prob(0.5), num(f64::NEG_INFINITY)).unwrap()), 0.0);
    let b = belief("x", 0.5, 0.5);
    assert!(engine().decay_all(&[b], &[num(f64::NAN)]).is_err());
}

#[test]
fn idle_time_is_counted_in_whole_seconds() {
    let mut b = belief("x", 0.5, 0.5);
    b.last_activated_at = Timestamp::new(100, 900_000_000).unwrap();
    let later = Timestamp::new(103, 100_000_000).unwrap();
    assert_eq!(engine().idle_seconds(&[b.clone()], later), vec![2]);
    let earlier = Timestamp::new(50, 0).unwrap();
    assert_eq!(engine().idle_seconds(&[b], earlier), vec![0]);
}

fn weak(p: f64) -> Belief {
    belief("weak", p, 0.5)
}

#[test]
fn sweep_waits_for_the_grace_period() {
    let b = weak(0.1);
    let map: HashMap<u128, &Belief> = [(b.id, &b)].into_iter().collect();
    let now = Timestamp::new(1_000_000, 0).unwrap();
    let old = Timestamp::new(1_000_000 - 3600, 0).unwrap();
    let edges = [(1, b.id, old)];
    assert_eq!(engine().find_expired_defeated(&edges, &map, now, num(0.3), 60), vec![b.id]);
    assert!(engine().find_expired_defeated(&edges, &map, now, num(0.3), 61).is_empty());
}

#[test]
fn sweep_spares_probable_beliefs() {
    let b = weak(0.3);
    let map: HashMap<u128, &Belief> = [(b.id, &b)].into_iter().collect();
    let now = Timestamp::new(1_000_000, 0).unwrap();
    let old = Timestamp::new(0, 0).unwrap();
    let edges = [(1, b.id, old)];
    assert!(engine().find_expired_defeated(&edges, &map, now, num(0.3), 0).is_empty());
    assert!(engine().find_expired_defeated(&edges, &map, now, num(f64::NAN), 0).is_empty());
}

#[test]
fn sweep_counts_from_the_latest_defeat() {
    let b = weak(0.1);
    let map: HashMap<u128, &Belief> = [(b.id, &b)].into_iter().collect();
    let now = Timestamp::new(1_000_000, 0).unwrap();
    let old = Timestamp::new(0, 0).unwrap();
    let recent = Timestamp::new(999_990, 0).unwrap();
    let both = [(1, b.id, old), (2, b.id, recent)];
    assert!(engine().find_expired_defeated(&both, &map, now, num(0.3), 60).is_empty());
    let twice = [(1, b.id, old), (2, b.id, old)];
    assert_eq!(engine().find_expired_defeated(&twice, &map, now, num(0.3), 60), vec![b.id]);
}

#[test]
fn sweep_skips_missing_beliefs() {
    let map: HashMap<u128, &Belief> = HashMap::new();
    let now = Timestamp::new(1_000_000, 0).unwrap();
    let old = Timestamp::new(0, 0).unwrap();
    assert!(engine().find_expired_defeated(&[(1, 2, old)], &map, now, num(0.3), 0).is_empty());
}

#[test]
fn contradictions_are_not_propagated() {
    let s = belief("S", 0.9, 0.9);
    let a = belief("A", 0.1, 0.9);
    let b = belief("B", 0.7, 0.9);
    let edges = vec![
        (s.id, a.id, EdgeType::Contradicts, prob(1.0)),
        (a.id, b.id, EdgeType::Contradicts, prob(0.3)),
        (b.id, a.id, EdgeType::Contradicts, prob(0.3)),
    ];
    assert!(engine().propagate_defeat(&s, &[a, b], &edges).unwrap().is_empty());
}

#[test]
fn the_order_of_two_edges_is_irrelevant() {
    let s = belief("S", 0.9, 0.9);
    let a = belief("A", 0.3, 0.9);
    let t = belief("T", 0.1, 0.9);
    let edges = vec![
        (s.id, t.id, EdgeType::Supports, prob(0.7)),
        (a.id, t.id, EdgeType::Supports, prob(0.6)),
        (s.id, t.id, EdgeType::Defeats, prob(0.1)),
        (a.id, t.id, EdgeType::Defeats, prob(0.2)),
    ];
    let mut reversed = edges.clone();
    reversed.reverse();
    let x = engine().propagate_defeat(&s, &[a.clone(), t.clone()], &edges).unwrap();
    let y = engine().propagate_defeat(&s, &[a, t], &reversed).unwrap();
    assert_eq!(x, y);
}

#[test]
fn edges_without_effect_can_be_left_out() {
    let s = belief("S", 0.9, 0.9);
    let a = belief("A", 0.2, 0.9);
    let b = belief("B", 0.4, 0.9);
    let bearing = vec![
        (s.id, a.id, EdgeType::Supports, prob(0.5)),
        (a.id, b.id, EdgeType::Defeats, prob(0.7)),
    ];
    let mut all = bearing.clone();
    all.insert(0, (b.id, a.id, EdgeType::Contradicts, prob(1.0)));
    all.insert(1, (a.id, s.id, EdgeType::Defeats, prob(1.0)));
    all.push((77, a.id, EdgeType::Supports, prob(1.0)));
    all.push((a.id, 78, EdgeType::Causes, prob(1.0)));
    let downstream = [a, b];
    assert_eq!(
        engine().propagate_defeat(&s, &downstream, &all).unwrap(),
        engine().propagate_defeat(&s, &downstream, &bearing).unwrap()
    );
}

#[test]
fn order_of_many_edges_shows_in_last_places_only() {
    let s = belief("S", 0.9, 0.9);
    let t = belief("T", 0.3, 0.9);
    let edges: Vec<_> = (0..9)
        .map(|i| {
            let kind = if i % 3 == 0 { EdgeType::Defeats } else { EdgeType::Supports };
            (s.id, t.id, kind, prob(0.1 + 0.07 * i as f64))
        })
        .collect();
    let first = engine().propagate_defeat(&s, &[t.clone()], &edges).unwrap();
    for k in 1..edges.len() {
        let mut turned = edges.clone();
        turned.rotate_left(k);
        turned.swap(0, 4);
        let r = engine().propagate_defeat(&s, &[t.clone()], &turned).unwrap();
        let gap = (val(r[0].1) - val(first[0].1)).abs();
        assert!(gap <= (4.0 * 9.0 + 6.0) * 2f64.powi(-53));
    }
}

#[test]
fn two_decays_are_one_by_their_product() {
    let place = 2f64.powi(-53);
    for p in grid() {
        for (x, y) in [(0.9, 0.8), (0.5, 0.5), (1.0, 0.3), (0.3, 1.0), (0.0, 0.7), (0.95, 0.99), (1e-9, 0.1)] {
            let once = engine().apply_decay(prob(p), num(x)).unwrap();
            let twice = engine().apply_decay(once, num(y)).unwrap();
            let both = engine().apply_decay(prob(p), num(x * y)).unwrap();
            assert!((val(twice) - val(both)).abs() <= 4.0 * place);
            assert!(val(once) <= p);
        }
        assert_eq!(val(engine().apply_decay(prob(p), num(1.0)).unwrap()), p);
    }
}

#[test]
fn edges_move_a_belief_their_way() {
    let place = 2f64.powi(-53);
    let s = belief("S", 0.8, 0.9);
    for p in grid() {
        let t = belief("T", p, 0.9);
        let after = |kinds: &[EdgeType]| {
            let edges: Vec<_> = kinds.iter().map(|k| (s.id, t.id, *k, prob(0.6))).collect();
            let r = engine().propagate_defeat(&s, &[t.clone()], &edges).unwrap();
            find(&r, t.id).unwrap_or(p)
        };
        assert!(after(&[EdgeType::Supports, EdgeType::Causes]) >= p - 2.0 * place);
        assert!(after(&[EdgeType::Defeats, EdgeType::Defeats]) <= p + 2.0 * place);
    }
}

#[test]
fn order_of_edges_shows_little_in_a_propagation() {
    let s = belief("S", 0.9, 0.9);
    let all: Vec<Belief> = (1..5).map(|i| belief("T", 0.15 * i as f64, 0.9)).collect();
    let mut edges = Vec::new();
    for (i, t) in all.iter().enumerate() {
        edges.push((s.id, t.id, EdgeType::Supports, prob(0.3 + 0.1 * i as f64)));
        for (j, from) in all[..i].iter().enumerate() {
            let kind = if (i + j) % 2 == 0 { EdgeType::Defeats } else { EdgeType::Causes };
            edges.push((from.id, t.id, kind, prob(0.1 + 0.2 * j as f64)));
        }
    }
    let first = engine().propagate_defeat(&s, &all, &edges).unwrap();
    assert_eq!(first.len(), 4);
    for k in 1..edges.len() {
        let mut turned = edges.clone();
        turned.rotate_left(k);
        let r = engine().propagate_defeat(&s, &all, &turned).unwrap();
        for (id, p) in &first {
            assert!((find(&r, *id).unwrap() - val(*p)).abs() <= 1e-12);
        }
    }
}

#[test]
fn a_contradicted_belief_keeps_what_is_returned() {
    let s = belief("S", 0.9, 0.9);
    let a = belief("A", 0.4, 0.9);
    let b = belief("B", 0.3, 0.9);
    let bearing = vec![(a.id, b.id, EdgeType::Supports, prob(0.5))];
    let mut all = bearing.clone();
    all.push((s.id, a.id, EdgeType::Contradicts, prob(0.9)));
    let downstream = [a, b];
    assert_eq!(
        engine().propagate_defeat(&s, &downstream, &all).unwrap(),
        engine().propagate_defeat(&s, &downstream, &bearing).unwrap()
    );
}
