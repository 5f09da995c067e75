use std::str::FromStr;

use mimir::binary64::Binary64;
use mimir::graph::{
    beta_mean, beta_to_pc, coupled_alpha, counts_with_confidence, mass_of_grounds, prior_from, Belief, Edge, EdgeType,
    GraphError, MemoryType, Pattern, Probability,
};
use mimir::time::Timestamp;

fn num(v: f64) -> Binary64 {
    Binary64 { bits: v.to_bits() }
}

fn val(p: Probability) -> f64 {
    f64::from_bits(p.value().bits)
}

fn prob(v: f64) -> Probability {
    Probability::new(num(v)).unwrap()
}

#[test]
fn probability_rejects_out_of_range() {
    assert!(Probability::new(num(1.1)).is_err());
    assert!(Probability::new(num(-0.1)).is_err());
}

#[test]
fn probability_accepts_bounds() {
    assert!(Probability::new(num(0.0)).is_ok());
    assert!(Probability::new(num(1.0)).is_ok());
    assert!(Probability::new(num(0.5)).is_ok());
}

#[test]
fn probability_rejects_nan() {
    assert!(Probability::new(num(f64::NAN)).is_err());
}

#[test]
fn probability_rejects_infinity() {
    assert!(Probability::new(num(f64::INFINITY)).is_err());
    assert!(Probability::new(num(f64::NEG_INFINITY)).is_err());
}

#[test]
fn probability_attenuate_by_zero_gives_zero() {
    let p = prob(0.9);
    assert_eq!(val(p.attenuate(num(0.0))), 0.0);
}

#[test]
fn probability_attenuate_by_one_unchanged() {
    let p = prob(0.7);
    assert!((val(p.attenuate(num(1.0))) - 0.7).abs() < 1e-12);
}

#[test]
fn probability_attenuate_result_clamped_above_one() {
    let p = prob(0.9);
    assert_eq!(val(p.attenuate(num(2.0))), 1.0);
}

#[test]
fn probability_attenuate_result_clamped_below_zero() {
    let p = prob(0.9);
    assert_eq!(val(p.attenuate(num(-1.0))), 0.0);
}

#[test]
fn probability_value_roundtrip() {
    let v = 0.314159;
    let p = prob(v);
    assert!((val(p) - v).abs() < 1e-15);
}

#[test]
fn edge_type_variants_exist() {
    let _ = EdgeType::Supports;
    let _ = EdgeType::Defeats;
    let _ = EdgeType::Causes;
    let _ = EdgeType::Contradicts;
}

#[test]
fn edge_type_supports_roundtrip() {
    assert_eq!(EdgeType::from_str("SUPPORTS").unwrap(), EdgeType::Supports);
    assert_eq!(EdgeType::Supports.as_str(), "SUPPORTS");
}

#[test]
fn edge_type_defeats_roundtrip() {
    assert_eq!(EdgeType::from_str("DEFEATS").unwrap(), EdgeType::Defeats);
    assert_eq!(EdgeType::Defeats.as_str(), "DEFEATS");
}

#[test]
fn edge_type_causes_roundtrip() {
    assert_eq!(EdgeType::from_str("CAUSES").unwrap(), EdgeType::Causes);
    assert_eq!(EdgeType::Causes.as_str(), "CAUSES");
}

#[test]
fn edge_type_contradicts_roundtrip() {
    assert_eq!(
        EdgeType::from_str("CONTRADICTS").unwrap(),
        EdgeType::Contradicts
    );
    assert_eq!(EdgeType::Contradicts.as_str(), "CONTRADICTS");
}

#[test]
fn edge_type_unknown_str_fails() {
    assert!(EdgeType::from_str("UNKNOWN").is_err());
    assert!(EdgeType::from_str("").is_err());
    assert!(EdgeType::from_str("supports").is_err());
}

#[test]
fn belief_construction() {
    let b = Belief::new("the sky is blue".to_string(), num(0.9), num(0.8)).unwrap();
    assert_eq!(val(b.probability), 0.9);
    assert_eq!(val(b.confidence), 0.8);
}

#[test]
fn belief_boundary_probabilities() {
    let b = Belief::new("edge case".to_string(), num(0.0), num(1.0)).unwrap();
    assert_eq!(val(b.probability), 0.0);
    assert_eq!(val(b.confidence), 1.0);
}

#[test]
fn belief_invalid_probability_fails() {
    assert!(Belief::new("bad".to_string(), num(1.5), num(0.5)).is_err());
    assert!(Belief::new("bad".to_string(), num(-0.1), num(0.5)).is_err());
}

#[test]
fn belief_invalid_confidence_fails() {
    assert!(Belief::new("bad".to_string(), num(0.5), num(1.1)).is_err());
    assert!(Belief::new("bad".to_string(), num(0.5), num(-0.1)).is_err());
}

#[test]
fn belief_has_unique_ids() {
    let b1 = Belief::new("same content".to_string(), num(0.5), num(0.5)).unwrap();
    let b2 = Belief::new("same content".to_string(), num(0.5), num(0.5)).unwrap();
    assert_ne!(b1.id, b2.id);
}

#[test]
fn pattern_new_valid() {
    let p = Pattern::new("situation".to_string(), "approach".to_string(), num(0.8)).unwrap();
    assert_eq!(p.activation_count, 0);
    assert!((val(p.success_rate) - 0.8).abs() < 1e-12);
}

#[test]
fn pattern_invalid_success_rate_fails() {
    assert!(Pattern::new("s".to_string(), "a".to_string(), num(1.2)).is_err());
    assert!(Pattern::new("s".to_string(), "a".to_string(), num(-0.1)).is_err());
}

#[test]
fn edge_new_valid() {
    let from = uuid::Uuid::new_v4().as_u128();
    let to = uuid::Uuid::new_v4().as_u128();
    let e = Edge::new(from, to, EdgeType::Supports, num(0.6)).unwrap();
    assert_eq!(e.from_id, from);
    assert_eq!(e.to_id, to);
    assert!((val(e.weight) - 0.6).abs() < 1e-12);
}

#[test]
fn edge_new_invalid_weight_fails() {
    let id = uuid::Uuid::new_v4().as_u128();
    assert!(Edge::new(id, id, EdgeType::Supports, num(-0.1)).is_err());
    assert!(Edge::new(id, id, EdgeType::Supports, num(1.1)).is_err());
}

#[test]
fn prop_probability_valid_range_accepted() {
    for i in 0..=1000 {
        assert!(Probability::new(num(i as f64 / 1000.0)).is_ok());
    }
}

#[test]
fn prop_probability_gt_one_rejected() {
    for i in 0..1000 {
        assert!(Probability::new(num(1.0001 + i as f64 * 1e7)).is_err());
    }
}

#[test]
fn prop_probability_negative_rejected() {
    for i in 0..1000 {
        assert!(Probability::new(num(-0.0001 - i as f64 * 1e7)).is_err());
    }
}

#[test]
fn prop_attenuate_stays_in_range() {
    for i in 0..=50 {
        for j in 0..=50 {
            let r = prob(i as f64 / 50.0).attenuate(num(j as f64 / 25.0));
            assert!(val(r) >= 0.0 && val(r) <= 1.0);
        }
    }
}

#[test]
fn prop_edge_type_roundtrip() {
    for et in [
        EdgeType::Supports,
        EdgeType::Defeats,
        EdgeType::Causes,
        EdgeType::Contradicts,
    ] {
        assert_eq!(EdgeType::from_str(et.as_str()).unwrap(), et);
    }
}

#[test]
fn prop_probability_value_preserved() {
    for i in 0..=1000 {
        let v = i as f64 / 1000.0;
        assert_eq!(val(prob(v)), v);
    }
}

#[test]
fn negative_zero_is_a_probability() {
    assert_eq!(val(prob(-0.0)), 0.0);
    assert!(Probability::new(num(f64::from_bits(0x8000_0000_0000_0001))).is_err());
    assert!(Probability::new(num(f64::from_bits(0x3FF0_0000_0000_0001))).is_err());
}

#[test]
fn refusals_name_the_number() {
    match Belief::new("b".to_string(), num(1.5), num(7.0)) {
        Err(GraphError::ProbabilityOutOfRange(v)) => assert_eq!(f64::from_bits(v.bits), 1.5),
        _ => panic!("the probability is refused first"),
    }
    match Belief::new("b".to_string(), num(0.5), num(7.0)) {
        Err(GraphError::ProbabilityOutOfRange(v)) => assert_eq!(f64::from_bits(v.bits), 7.0),
        _ => panic!("the confidence is refused"),
    }
    assert!(matches!(EdgeType::parse("GROUNDS"), Err(GraphError::UnknownEdgeType(s)) if s == "GROUNDS"));
    assert!(matches!(MemoryType::parse("Fact"), Err(GraphError::UnknownMemoryType(s)) if s == "Fact"));
}

#[test]
fn memory_types_are_read_back() {
    for t in [MemoryType::Fact, MemoryType::Experiential, MemoryType::Working] {
        assert_eq!(MemoryType::from_str(t.as_str()).unwrap(), t);
    }
    assert_eq!(MemoryType::default(), MemoryType::Fact);
    assert_eq!(MemoryType::Experiential.as_str(), "experiential");
    assert_eq!(MemoryType::Working.as_str(), "working");
}

#[test]
fn beliefs_carry_project_and_type() {
    let b = Belief::new_in_project("c".to_string(), num(0.5), num(0.5), "p".to_string())
        .unwrap()
        .with_memory_type(MemoryType::Working);
    assert_eq!(b.project.as_deref(), Some("p"));
    assert_eq!(b.memory_type, MemoryType::Working);
    assert_eq!(b.created_at, b.last_activated_at);
    // A version 4 identifier.
    assert_eq!((b.id >> 76) & 0xf, 4);
    assert_eq!((b.id >> 62) & 3, 2);
    let d = b.duplicate();
    assert_eq!(d.id, b.id);
    assert_eq!(d.project, b.project);
    assert_eq!(d.content, b.content);
}

#[test]
fn created_beliefs_keep_what_they_are_given() {
    let at = Timestamp::new(1_700_000_000, 5).unwrap();
    let b = Belief::created(42, at, "c".to_string(), num(0.25), num(0.5)).unwrap();
    assert_eq!(b.id, 42);
    assert_eq!(b.created_at.secs(), 1_700_000_000);
    assert_eq!(b.last_activated_at.nanos(), 5);
    assert_eq!(b.memory_type, MemoryType::Fact);
    let p = Pattern::created(7, at, "s".to_string(), "a".to_string(), num(0.25)).unwrap();
    assert_eq!((p.id, p.activation_count), (7, 0));
    assert_eq!(p.created_at, at);
}

#[test]
fn new_beliefs_are_stamped_with_the_current_time() {
    let b = Belief::new("now".to_string(), num(0.5), num(0.5)).unwrap();
    // Any time after 2020 and before 2200.
    assert!(b.created_at.secs() > 1_577_836_800 && b.created_at.secs() < 7_258_118_400);
}

#[test]
fn priors_follow_probability_and_confidence() {
    let (a, b) = prior_from(prob(0.4), prob(0.9));
    let kappa = 2.0 + 0.9 * 198.0;
    assert_eq!(f64::from_bits(a.bits), 0.4 * kappa);
    assert_eq!(f64::from_bits(b.bits), (1.0 - 0.4) * kappa);
    assert!((f64::from_bits(a.bits) - 72.08).abs() < 1e-9);
}

#[test]
fn means_and_confidences_follow_the_counts() {
    let (p, c) = beta_to_pc(num(74.08), num(108.12));
    assert_eq!(val(p), 74.08 / (74.08 + 108.12));
    assert_eq!(val(c), (74.08 + 108.12 - 2.0) / 198.0);
    assert_eq!(val(beta_mean(num(0.0), num(0.0))), 0.5);
    assert_eq!(val(beta_to_pc(num(0.5), num(0.5)).1), 0.0);
    assert_eq!(val(beta_to_pc(num(300.0), num(1.0)).1), 1.0);
}

#[test]
fn grounding_adds_to_the_count_in_favour() {
    let a = coupled_alpha(num(72.08), prob(0.85));
    assert_eq!(f64::from_bits(a.bits), 72.08 + 0.85);
}

#[test]
fn stored_beliefs_follow_their_counts() {
    let at = Timestamp::new(0, 0).unwrap();
    let b = Belief::from_stored(
        1,
        "c".to_string(),
        num(30.0),
        num(10.0),
        num(1.0),
        num(1.0),
        at,
        at,
        MemoryType::Experiential,
        None,
    )
    .unwrap();
    assert_eq!(val(b.probability), 0.75);
    assert_eq!(val(b.confidence), 38.0 / 198.0);
    let refused = Belief::from_stored(
        1,
        "c".to_string(),
        num(30.0),
        num(-1.0),
        num(1.0),
        num(f64::NAN),
        at,
        at,
        MemoryType::Fact,
        None,
    );
    assert!(matches!(refused, Err(GraphError::CountOutOfRange(v)) if v == num(-1.0)));
}

#[test]
fn products_that_are_no_number_leave_the_probability() {
    assert_eq!(val(prob(0.7).attenuate(num(f64::NAN))), 0.7);
    assert_eq!(val(prob(0.0).attenuate(num(f64::INFINITY))), 0.0);
    assert_eq!(val(prob(0.0).attenuate(num(f64::NEG_INFINITY))), 0.0);
    assert_eq!(val(prob(0.7).attenuate(num(f64::INFINITY))), 1.0);
    assert_eq!(val(prob(0.7).attenuate(num(f64::NEG_INFINITY))), 0.0);
}

#[test]
fn priors_are_read_back_from_their_counts() {
    for i in 0..=40 {
        for j in 0..=40 {
            let (p, c) = (i as f64 / 40.0, j as f64 / 40.0);
            let (alpha, beta) = prior_from(prob(p), prob(c));
            let (mean, confidence) = beta_to_pc(alpha, beta);
            assert!((val(mean) - p).abs() < 1e-9, "{p} {c}");
            assert!((val(confidence) - c).abs() < 1e-9, "{p} {c}");
        }
    }
}

#[test]
fn grounds_stand_for_counts() {
    assert_eq!(mass_of_grounds(num(2.75)), num(2.75));
    assert_eq!(mass_of_grounds(num(0.0)), num(0.0));
}

#[test]
fn another_confidence_keeps_the_probability() {
    let at = Timestamp::new(0, 0).unwrap();
    for (p, c, new) in [(0.7, 0.9, 0.4), (0.0, 0.0, 1.0), (0.25, 0.5, 0.0)] {
        let b = Belief::created(1, at, "x".to_string(), num(p), num(c)).unwrap();
        let (alpha, beta) = counts_with_confidence(&b, prob(new));
        let (mean, confidence) = beta_to_pc(alpha, beta);
        assert!((val(mean) - p).abs() < 1e-9);
        assert!((val(confidence) - new).abs() < 1e-9);
    }
}
