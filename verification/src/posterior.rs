//! Posteriors: the pseudo-counts of beliefs, derived from their priors and from
//! the evidence that their edges carry.
//!
//! Evidence is derived anew each time and not added to what was derived before.
use std::collections::HashMap;
use vstd::arithmetic::power2::*;
use vstd::prelude::*;

use crate::binary64::{
    complement, distance, lemma_one_units, lemma_pattern_representable, lemma_small_sum_finite,
    lemma_small_summand, one, pattern_units, plus, quotient, times, Binary64, INFINITY_BITS,
    ONE_BITS, SUMMAND_LIMIT,
};
use crate::graph::{
    beta_mean, is_count, is_mass, law_keys_order_probabilities, mean_of, Belief, EdgeType,
    GraphError, MemoryType, Probability,
};
use crate::inference::{
    belief_values, edges_into, gather_incoming, holds, lemma_order_in_snapshot, lemma_settled_pattern,
    lemma_units_order, raises, settled_units, snapshot, surgical, sweep_order, swept_ids,
    updates_view, EdgeTuple, InferenceEngine, CHANGED_BITS, MAX_SWEEPS, SETTLED_BITS,
};
use crate::inference_laws::{lemma_swept, lemma_swept_from};
use crate::propagation_laws::law_only_a_bad_prior_is_refused;
use crate::rounding::{
    lemma_round_at_least, lemma_round_at_most, lemma_round_exact, lemma_round_monotone,
    lemma_round_relative, lemma_round_representable, lemma_round_zero, representable,
};
use crate::sorting::ascending;

verus! {

broadcast use vstd::std_specs::hash::group_hash_axioms;

/// Bit pattern of four: the count that an edge of full weight adds where its
/// source is certain.
pub const EVIDENCE_UNIT: u64 = 0x4010_0000_0000_0000;

/// A pair of counts: those in favour and those against.
pub type Counts = (Binary64, Binary64);

/// A pair of counts in units.
pub open spec fn counts_units(c: Counts) -> (nat, nat) {
    (c.0.units(), c.1.units())
}

/// The count that an edge of the given weight adds, from the mean of its source.
pub open spec fn evidence(weight: nat, mean: nat) -> nat {
    times(times(weight, mean), 4 * one())
}

/// The count in favour: that of the prior, and the evidence of the raising edges.
pub open spec fn count_for(prior: nat, incoming: Seq<EdgeTuple>, val: Map<u128, nat>) -> nat
    decreases incoming.len(),
{
    if incoming.len() == 0 {
        prior
    } else {
        let before = count_for(prior, incoming.drop_last(), val);
        let e = incoming.last();
        if raises(e.2) {
            plus(before, evidence(e.3.units(), val[e.0]))
        } else {
            before
        }
    }
}

/// The count against: that of the prior, and the evidence of the defeating edges.
pub open spec fn count_against(prior: nat, incoming: Seq<EdgeTuple>, val: Map<u128, nat>) -> nat
    decreases incoming.len(),
{
    if incoming.len() == 0 {
        prior
    } else {
        let before = count_against(prior, incoming.drop_last(), val);
        let e = incoming.last();
        if e.2 == EdgeType::Defeats {
            plus(before, evidence(e.3.units(), val[e.0]))
        } else {
            before
        }
    }
}

/// The counts of a belief from its prior, its incoming edges and the means of
/// their sources.
pub open spec fn posterior(
    prior: (nat, nat),
    incoming: Seq<EdgeTuple>,
    val: Map<u128, nat>,
) -> (nat, nat) {
    (count_for(prior.0, incoming, val), count_against(prior.1, incoming, val))
}

/// The mean of the counts.
pub open spec fn posterior_mean(
    prior: (nat, nat),
    incoming: Seq<EdgeTuple>,
    val: Map<u128, nat>,
) -> nat {
    let counts = posterior(prior, incoming, val);
    mean_of(counts.0, counts.1)
}

/// The priors of the beliefs, by identifier; a later belief replaces an earlier
/// one of the same identifier.
pub open spec fn prior_values(beliefs: Seq<Belief>) -> Map<u128, (nat, nat)>
    decreases beliefs.len(),
{
    if beliefs.len() == 0 {
        Map::empty()
    } else {
        let b = beliefs.last();
        prior_values(beliefs.drop_last()).insert(b.id, counts_units((b.alpha0, b.beta0)))
    }
}

/// Probabilities in units.
pub open spec fn means_view(means: Map<u128, Probability>) -> Map<u128, nat> {
    means.map_values(|p: Probability| p.units())
}

/// The means at the start: those of the sources outside, of the beliefs, and of
/// the seed.
pub open spec fn start_values(
    external: Map<u128, nat>,
    downstream: Seq<Belief>,
    seed_id: u128,
    seed: nat,
) -> Map<u128, nat> {
    external.union_prefer_right(snapshot(downstream, seed_id, seed))
}

/// One pass over the beliefs from position `i` on: each gets the mean that its
/// sources entail as they stand. Also whether no mean moved.
pub open spec fn pass(
    order: Seq<u128>,
    edges: Seq<EdgeTuple>,
    base: Map<u128, nat>,
    priors: Map<u128, (nat, nat)>,
    val: Map<u128, nat>,
    i: int,
) -> (Map<u128, nat>, bool)
    decreases order.len() - i,
{
    if i < 0 || i >= order.len() {
        (val, true)
    } else {
        let v = order[i];
        let p = posterior_mean(priors[v], edges_into(edges, base, v), val);
        let rest = pass(order, edges, base, priors, val.insert(v, p), i + 1);
        (rest.0, p == val[v] && rest.1)
    }
}

/// Passes until nothing moves any more, at most `n` of them.
pub open spec fn settled_means(
    order: Seq<u128>,
    edges: Seq<EdgeTuple>,
    base: Map<u128, nat>,
    priors: Map<u128, (nat, nat)>,
    val: Map<u128, nat>,
    n: nat,
) -> Map<u128, nat>
    decreases n,
{
    if n == 0 {
        val
    } else {
        let (next, settled) = pass(order, edges, base, priors, val, 0);
        if settled {
            next
        } else {
            settled_means(order, edges, base, priors, next, (n - 1) as nat)
        }
    }
}

/// The beliefs whose mean differs noticeably from the one they started with,
/// with the counts that the means entail.
pub open spec fn revised(
    order: Seq<u128>,
    edges: Seq<EdgeTuple>,
    base: Map<u128, nat>,
    priors: Map<u128, (nat, nat)>,
    val: Map<u128, nat>,
) -> Seq<(u128, (nat, nat))>
    decreases order.len(),
{
    if order.len() == 0 {
        Seq::empty()
    } else {
        let before = revised(order.drop_last(), edges, base, priors, val);
        let v = order.last();
        let counts = posterior(priors[v], edges_into(edges, base, v), val);
        if distance(mean_of(counts.0, counts.1), base[v]) > settled_units() {
            before.push((v, counts))
        } else {
            before
        }
    }
}

/// What a propagation of evidence reports: the beliefs whose mean changes, in the
/// order of their identifiers, with their new counts. `external` holds the means
/// of sources outside.
pub open spec fn posteriors(
    external: Map<u128, nat>,
    seed_id: u128,
    seed: nat,
    downstream: Seq<Belief>,
    edges: Seq<EdgeTuple>,
) -> Seq<(u128, (nat, nat))> {
    let base = start_values(external, downstream, seed_id, seed);
    let order = ascending(swept_ids(downstream, seed_id));
    let priors = prior_values(downstream);
    revised(
        order,
        edges,
        base,
        priors,
        settled_means(order, edges, base, priors, base, MAX_SWEEPS as nat),
    )
}

/// Identifiers with their counts in units.
pub open spec fn counts_view(updates: Seq<(u128, Counts)>) -> Seq<(u128, (nat, nat))> {
    Seq::new(updates.len(), |i: int| (updates[i].0, counts_units(updates[i].1)))
}

/// Identifiers with the means of their counts.
pub open spec fn means_of(updates: Seq<(u128, (nat, nat))>) -> Seq<(u128, nat)> {
    Seq::new(updates.len(), |i: int| (updates[i].0, mean_of(updates[i].1.0, updates[i].1.1)))
}

/// Both numbers are counts.
pub open spec fn are_counts(c: Counts) -> bool {
    is_count(c.0) && is_count(c.1)
}

/// The error for the first belief whose prior is no pair of counts.
pub open spec fn refused_prior(beliefs: Seq<Belief>) -> Option<GraphError>
    decreases beliefs.len(),
{
    if beliefs.len() == 0 {
        None
    } else if refused_prior(beliefs.drop_last()) is Some {
        refused_prior(beliefs.drop_last())
    } else if !is_count(beliefs.last().alpha0) {
        Some(GraphError::CountOutOfRange(beliefs.last().alpha0))
    } else if !is_count(beliefs.last().beta0) {
        Some(GraphError::CountOutOfRange(beliefs.last().beta0))
    } else {
        None
    }
}

/// Priors held as numbers stand for the given ones in units.
spec fn holds_priors(priors: Map<u128, Counts>, model: Map<u128, (nat, nat)>) -> bool {
    &&& priors.dom() =~= model.dom()
    &&& forall|k: u128| #[trigger]
        priors.contains_key(k) ==> are_counts(priors[k]) && counts_units(priors[k]) == model[k]
}

/// The priors of the beliefs.
fn take_priors(downstream: &[Belief]) -> (r: Result<HashMap<u128, Counts>, GraphError>)
    ensures
        match r {
            Ok(priors) => refused_prior(downstream@) is None && holds_priors(
                priors@,
                prior_values(downstream@),
            ),
            Err(e) => refused_prior(downstream@) == Some(e),
        },
{
    let mut priors: HashMap<u128, Counts> = HashMap::new();
    let n: usize = downstream.len();
    let mut i: usize = 0;
    assert(downstream@.take(0) =~= Seq::empty());
    while i < n
        invariant
            i <= n,
            n == downstream@.len(),
            refused_prior(downstream@.take(i as int)) is None,
            holds_priors(priors@, prior_values(downstream@.take(i as int))),
        decreases n - i,
    {
        assert(downstream@.take(i + 1).drop_last() =~= downstream@.take(i as int));
        let alpha0 = downstream[i].alpha0;
        let beta0 = downstream[i].beta0;
        if alpha0.bits >= SUMMAND_LIMIT || beta0.bits >= SUMMAND_LIMIT {
            let e = if alpha0.bits >= SUMMAND_LIMIT {
                GraphError::CountOutOfRange(alpha0)
            } else {
                GraphError::CountOutOfRange(beta0)
            };
            proof {
                lemma_refused_prefix(downstream@, i + 1);
            }
            return Err(e);
        }
        priors.insert(downstream[i].id, (alpha0, beta0));
        i = i + 1;
    }
    assert(downstream@.take(n as int) =~= downstream@);
    Ok(priors)
}

/// What is refused among the first beliefs is refused among all of them.
proof fn lemma_refused_prefix(beliefs: Seq<Belief>, n: int)
    requires
        0 <= n <= beliefs.len(),
        refused_prior(beliefs.take(n)) is Some,
    ensures
        refused_prior(beliefs) == refused_prior(beliefs.take(n)),
    decreases beliefs.len(),
{
    if n == beliefs.len() {
        assert(beliefs.take(n) =~= beliefs);
    } else {
        assert(beliefs.drop_last().take(n) =~= beliefs.take(n));
        lemma_refused_prefix(beliefs.drop_last(), n);
    }
}

/// The means of the sources outside, of the beliefs and of the seed.
fn take_start_values(
    external: &HashMap<u128, Probability>,
    seed_id: u128,
    seed: Probability,
    downstream: &[Belief],
) -> (r: HashMap<u128, Probability>)
    ensures
        holds(r@, start_values(means_view(external@), downstream@, seed_id, seed.units())),
{
    let ghost outside = means_view(external@);
    let mut base: HashMap<u128, Probability> = external.clone();
    let n: usize = downstream.len();
    let mut i: usize = 0;
    proof {
        assert(downstream@.take(0) =~= Seq::empty());
        assert(outside.union_prefer_right(Map::empty()) =~= outside);
    }
    while i < n
        invariant
            i <= n,
            n == downstream@.len(),
            holds(
                base@,
                outside.union_prefer_right(
                    crate::inference::belief_values(downstream@.take(i as int)),
                ),
            ),
        decreases n - i,
    {
        base.insert(downstream[i].id, downstream[i].probability);
        proof {
            assert(downstream@.take(i + 1).drop_last() =~= downstream@.take(i as int));
            let before = crate::inference::belief_values(downstream@.take(i as int));
            let b = downstream@[i as int];
            assert(outside.union_prefer_right(before.insert(b.id, b.probability.units()))
                =~= outside.union_prefer_right(before).insert(b.id, b.probability.units()));
        }
        i = i + 1;
    }
    proof {
        assert(downstream@.take(n as int) =~= downstream@);
        let before = crate::inference::belief_values(downstream@);
        assert(outside.union_prefer_right(before.insert(seed_id, seed.units()))
            =~= outside.union_prefer_right(before).insert(seed_id, seed.units()));
    }
    base.insert(seed_id, seed);
    base
}

proof fn lemma_unit_pattern()
    ensures
        pattern_units(EVIDENCE_UNIT) == 4 * one(),
{
    lemma2_to64();
    lemma2_to64_rest();
    assert(0x4010_0000_0000_0000nat / 0x0010_0000_0000_0000 == 1025);
    assert(0x4010_0000_0000_0000nat % 0x0010_0000_0000_0000 == 0);
    lemma_pow2_adds(52, 1024);
    lemma_pow2_adds(2, 1074);
}

/// The counts of a belief.
fn derive_counts(
    prior: Counts,
    incoming: &Vec<EdgeTuple>,
    val: &HashMap<u128, Probability>,
    model: Ghost<Map<u128, nat>>,
) -> (r: Counts)
    requires
        are_counts(prior),
        holds(val@, model@),
        forall|i: int| 0 <= i < incoming@.len() ==> model@.contains_key((#[trigger] incoming@[i]).0),
    ensures
        are_counts(r),
        counts_units(r) == posterior(counts_units(prior), incoming@, model@),
{
    let n: usize = incoming.len();
    let mut alpha: Binary64 = prior.0;
    let mut beta: Binary64 = prior.1;
    let mut i: usize = 0;
    assert(incoming@.take(0) =~= Seq::empty());
    while i < n
        invariant
            i <= n,
            n == incoming@.len(),
            holds(val@, model@),
            forall|k: int| 0 <= k < n ==> model@.contains_key((#[trigger] incoming@[k]).0),
            is_count(alpha),
            is_count(beta),
            alpha.units() == count_for(prior.0.units(), incoming@.take(i as int), model@),
            beta.units() == count_against(prior.1.units(), incoming@.take(i as int), model@),
        decreases n - i,
    {
        assert(incoming@.take(i + 1).drop_last() =~= incoming@.take(i as int));
        let e = incoming[i];
        assert(val@.contains_key(e.0));
        match val.get(&e.0) {
            Some(source) => {
                let pull = e.3.value().product(source.value());
                let added = pull.product(Binary64 { bits: EVIDENCE_UNIT });
                proof {
                    lemma_unit_pattern();
                }
                match e.2 {
                    EdgeType::Supports | EdgeType::Causes => {
                        let sum = alpha.sum(added);
                        proof {
                            lemma_small_summand(alpha.bits, added.bits, sum.bits);
                        }
                        alpha = sum;
                    },
                    EdgeType::Defeats => {
                        let sum = beta.sum(added);
                        proof {
                            lemma_small_summand(beta.bits, added.bits, sum.bits);
                        }
                        beta = sum;
                    },
                    EdgeType::Contradicts => {},
                }
            },
            None => {},
        }
        i = i + 1;
    }
    assert(incoming@.take(n as int) =~= incoming@);
    (alpha, beta)
}

/// What a pass works on: the beliefs in their order, their edges and priors.
struct Network {
    order: Vec<u128>,
    incoming: Vec<Vec<EdgeTuple>>,
    priors: Vec<Counts>,
}

impl Network {
    /// The network holds the edges and priors of the beliefs of `base`.
    spec fn stands_for(
        self,
        edges: Seq<EdgeTuple>,
        base: Map<u128, nat>,
        priors: Map<u128, (nat, nat)>,
    ) -> bool {
        &&& self.incoming@.len() == self.order@.len()
        &&& self.priors@.len() == self.order@.len()
        &&& forall|i: int|
            0 <= i < self.order@.len() ==> base.contains_key(#[trigger] self.order@[i])
        &&& forall|i: int|
            0 <= i < self.order@.len() ==> (#[trigger] self.incoming@[i])@ == edges_into(
                edges,
                base,
                self.order@[i],
            ) && forall|k: int|
                0 <= k < self.incoming@[i]@.len() ==> base.contains_key(
                    (#[trigger] self.incoming@[i]@[k]).0,
                )
        &&& forall|i: int|
            0 <= i < self.order@.len() ==> are_counts(#[trigger] self.priors@[i]) && counts_units(
                self.priors@[i],
            ) == priors[self.order@[i]]
    }
}

/// One pass over all beliefs; whether it moved no mean.
fn pass_once(
    net: &Network,
    val: &mut HashMap<u128, Probability>,
    edges: Ghost<Seq<EdgeTuple>>,
    base: Ghost<Map<u128, nat>>,
    priors: Ghost<Map<u128, (nat, nat)>>,
    model: Ghost<Map<u128, nat>>,
) -> (settled: bool)
    requires
        net.stands_for(edges@, base@, priors@),
        holds(old(val)@, model@),
        model@.dom() =~= base@.dom(),
    ensures
        holds(final(val)@, pass(net.order@, edges@, base@, priors@, model@, 0).0),
        settled == pass(net.order@, edges@, base@, priors@, model@, 0).1,
        pass(net.order@, edges@, base@, priors@, model@, 0).0.dom() =~= base@.dom(),
{
    let n: usize = net.order.len();
    let mut i: usize = 0;
    let mut settled: bool = true;
    let ghost mut current: Map<u128, nat> = model@;
    let ghost goal = pass(net.order@, edges@, base@, priors@, model@, 0);
    while i < n
        invariant
            i <= n,
            n == net.order@.len(),
            net.stands_for(edges@, base@, priors@),
            holds(val@, current),
            current.dom() =~= base@.dom(),
            goal.0 == pass(net.order@, edges@, base@, priors@, current, i as int).0,
            goal.1 == (settled && pass(
                net.order@,
                edges@,
                base@,
                priors@,
                current,
                i as int,
            ).1),
        decreases n - i,
    {
        let v: u128 = net.order[i];
        assert(base@.contains_key(v));
        assert(current.contains_key(v));
        assert(val@.contains_key(v));
        assert(are_counts(net.priors@[i as int]));
        assert(net.incoming@[i as int]@ == edges_into(edges@, base@, v));
        let counts = derive_counts(net.priors[i], &net.incoming[i], val, Ghost(current));
        let mean = beta_mean(counts.0, counts.1);
        let old_mean = match val.get(&v) {
            Some(p) => *p,
            None => mean,
        };
        proof {
            law_keys_order_probabilities(mean, old_mean);
        }
        if mean.value().bits != old_mean.value().bits {
            settled = false;
        }
        val.insert(v, mean);
        proof {
            current = current.insert(v, mean.units());
        }
        i = i + 1;
    }
    settled
}

impl InferenceEngine {
    /// The new counts of the beliefs downstream of a seed belief: each has its
    /// prior and the evidence of all its edges, also of those from sources
    /// outside, whose means `external` holds. Nothing is written.
    pub fn propagate_evidence(
        &self,
        seed: &Belief,
        downstream: &[Belief],
        edges: &[EdgeTuple],
        external: &HashMap<u128, Probability>,
    ) -> (r: Result<Vec<(u128, Counts)>, GraphError>)
        ensures
            r is Ok <==> forall|i: int|
                0 <= i < downstream@.len() ==> is_count((#[trigger] downstream@[i]).alpha0)
                    && is_count(downstream@[i].beta0),
            match r {
                Ok(updates) => {
                    &&& refused_prior(downstream@) is None
                    &&& counts_view(updates@) == posteriors(
                        means_view(external@),
                        seed.id,
                        seed.probability.units(),
                        downstream@,
                        edges@,
                    )
                    &&& forall|i: int|
                        0 <= i < updates@.len() ==> are_counts((#[trigger] updates@[i]).1)
                },
                Err(e) => refused_prior(downstream@) == Some(e),
            },
    {
        proof {
            law_only_a_bad_prior_is_refused(downstream@);
        }
        self.derive_posteriors(seed.id, seed.probability, downstream, edges, external)
    }

    /// The probabilities that follow from setting `target_id` to `value`, its own
    /// causes cut off, from the evidence of causing edges only. Causes outside
    /// count too. Nothing is written.
    pub fn project_evidence(
        &self,
        target_id: u128,
        value: Probability,
        downstream: &[Belief],
        edges: &[EdgeTuple],
        external: &HashMap<u128, Probability>,
    ) -> (r: Result<Vec<(u128, Probability)>, GraphError>)
        ensures
            r is Ok <==> forall|i: int|
                0 <= i < downstream@.len() ==> is_count((#[trigger] downstream@[i]).alpha0)
                    && is_count(downstream@[i].beta0),
            match r {
                Ok(updates) => {
                    &&& refused_prior(downstream@) is None
                    &&& updates_view(updates@) == means_of(
                        posteriors(
                            means_view(external@),
                            target_id,
                            value.units(),
                            downstream@,
                            surgical(edges@, target_id),
                        ),
                    )
                },
                Err(e) => refused_prior(downstream@) == Some(e),
            },
    {
        proof {
            law_only_a_bad_prior_is_refused(downstream@);
        }
        let kept = crate::inference::cut_edges(edges, target_id);
        let counts = match self.derive_posteriors(
            target_id,
            value,
            downstream,
            kept.as_slice(),
            external,
        ) {
            Ok(counts) => counts,
            Err(e) => return Err(e),
        };
        let n: usize = counts.len();
        let mut r: Vec<(u128, Probability)> = Vec::new();
        let mut i: usize = 0;
        let ghost goal = means_of(counts_view(counts@));
        while i < n
            invariant
                i <= n,
                n == counts@.len(),
                goal == means_of(counts_view(counts@)),
                forall|k: int| 0 <= k < counts@.len() ==> are_counts((#[trigger] counts@[k]).1),
                r@.len() == i,
                forall|k: int|
                    0 <= k < i ==> ((#[trigger] r@[k]).0, r@[k].1.units()) == goal[k],
            decreases n - i,
        {
            let (id, pair) = counts[i];
            assert(are_counts(counts@[i as int].1));
            r.push((id, beta_mean(pair.0, pair.1)));
            i = i + 1;
        }
        assert(updates_view(r@) =~= goal);
        Ok(r)
    }

    /// Derives the counts of the beliefs until their means settle, and reports
    /// those that changed.
    fn derive_posteriors(
        &self,
        seed_id: u128,
        seed: Probability,
        downstream: &[Belief],
        edges: &[EdgeTuple],
        external: &HashMap<u128, Probability>,
    ) -> (r: Result<Vec<(u128, Counts)>, GraphError>)
        ensures
            match r {
                Ok(updates) => {
                    &&& refused_prior(downstream@) is None
                    &&& counts_view(updates@) == posteriors(
                        means_view(external@),
                        seed_id,
                        seed.units(),
                        downstream@,
                        edges@,
                    )
                    &&& forall|i: int|
                        0 <= i < updates@.len() ==> are_counts((#[trigger] updates@[i]).1)
                },
                Err(e) => refused_prior(downstream@) == Some(e),
            },
    {
        let priors = match take_priors(downstream) {
            Ok(priors) => priors,
            Err(e) => return Err(e),
        };
        let base = take_start_values(external, seed_id, seed, downstream);
        let ghost base_model = start_values(
            means_view(external@),
            downstream@,
            seed_id,
            seed.units(),
        );
        let ghost prior_model = prior_values(downstream@);
        let net = build_network(
            seed_id,
            seed,
            downstream,
            edges,
            &base,
            &priors,
            Ghost(means_view(external@)),
        );
        let mut val = base.clone();
        let ghost mut current = base_model;
        let ghost finished = settled_means(
            net.order@,
            edges@,
            base_model,
            prior_model,
            base_model,
            MAX_SWEEPS as nat,
        );
        let mut left: u32 = MAX_SWEEPS;
        let mut settled: bool = false;
        while left > 0 && !settled
            invariant
                left <= MAX_SWEEPS,
                net.stands_for(edges@, base_model, prior_model),
                holds(val@, current),
                current.dom() =~= base_model.dom(),
                finished == if settled {
                    current
                } else {
                    settled_means(
                        net.order@,
                        edges@,
                        base_model,
                        prior_model,
                        current,
                        left as nat,
                    )
                },
            decreases left,
        {
            settled =
            pass_once(
                &net,
                &mut val,
                Ghost(edges@),
                Ghost(base_model),
                Ghost(prior_model),
                Ghost(current),
            );
            proof {
                current = pass(net.order@, edges@, base_model, prior_model, current, 0).0;
            }
            left = left - 1;
        }
        let n: usize = net.order.len();
        let mut updated: Vec<(u128, Counts)> = Vec::new();
        let mut j: usize = 0;
        proof {
            assert(net.order@.take(0) =~= Seq::empty());
            assert(counts_view(updated@) =~= Seq::empty());
            lemma_settled_pattern();
        }
        while j < n
            invariant
                j <= n,
                n == net.order@.len(),
                net.stands_for(edges@, base_model, prior_model),
                holds(base@, base_model),
                holds(val@, current),
                current.dom() =~= base_model.dom(),
                pattern_units(SETTLED_BITS) == settled_units(),
                counts_view(updated@) == revised(
                    net.order@.take(j as int),
                    edges@,
                    base_model,
                    prior_model,
                    current,
                ),
                forall|k: int| 0 <= k < updated@.len() ==> are_counts((#[trigger] updated@[k]).1),
            decreases n - j,
        {
            let v: u128 = net.order[j];
            assert(net.order@.take(j + 1).drop_last() =~= net.order@.take(j as int));
            assert(base_model.contains_key(v) && base@.contains_key(v));
            assert(are_counts(net.priors@[j as int]));
            assert(net.incoming@[j as int]@ == edges_into(edges@, base_model, v));
            let ghost before = counts_view(updated@);
            let counts = derive_counts(net.priors[j], &net.incoming[j], &val, Ghost(current));
            match base.get(&v) {
                Some(b) => {
                    let delta = beta_mean(counts.0, counts.1).value().distance_to(b.value());
                    proof {
                        lemma_units_order(Binary64 { bits: SETTLED_BITS }, delta);
                    }
                    if delta.bits > SETTLED_BITS {
                        updated.push((v, counts));
                        assert(counts_view(updated@) =~= before.push((v, counts_units(counts))));
                    }
                },
                None => {},
            }
            j = j + 1;
        }
        assert(net.order@.take(n as int) =~= net.order@);
        Ok(updated)
    }
}

/// The beliefs in their order, with their edges and priors.
fn build_network(
    seed_id: u128,
    seed: Probability,
    downstream: &[Belief],
    edges: &[EdgeTuple],
    base: &HashMap<u128, Probability>,
    priors: &HashMap<u128, Counts>,
    external: Ghost<Map<u128, nat>>,
) -> (r: Network)
    requires
        holds(base@, start_values(external@, downstream@, seed_id, seed.units())),
        holds_priors(priors@, prior_values(downstream@)),
    ensures
        r.order@ == ascending(swept_ids(downstream@, seed_id)),
        r.stands_for(
            edges@,
            start_values(external@, downstream@, seed_id, seed.units()),
            prior_values(downstream@),
        ),
{
    let order = sweep_order(seed_id, downstream);
    let ghost model = start_values(external@, downstream@, seed_id, seed.units());
    proof {
        lemma_order_in_snapshot(downstream@, seed_id, seed.units(), order@);
        lemma_order_has_priors(downstream@, seed_id, seed.units(), order@);
    }
    let n: usize = order.len();
    let mut incoming: Vec<Vec<EdgeTuple>> = Vec::new();
    let mut own: Vec<Counts> = Vec::new();
    let mut i: usize = 0;
    while i < n
        invariant
            i <= n,
            n == order@.len(),
            incoming@.len() == i,
            own@.len() == i,
            holds(base@, model),
            holds_priors(priors@, prior_values(downstream@)),
            forall|k: int|
                0 <= k < order@.len() ==> prior_values(downstream@).contains_key(
                    #[trigger] order@[k],
                ),
            forall|k: int|
                0 <= k < i ==> (#[trigger] incoming@[k])@ == edges_into(edges@, model, order@[k])
                    && forall|m: int|
                    0 <= m < incoming@[k]@.len() ==> model.contains_key(
                        (#[trigger] incoming@[k]@[m]).0,
                    ),
            forall|k: int|
                0 <= k < i ==> are_counts(#[trigger] own@[k]) && counts_units(own@[k])
                    == prior_values(downstream@)[order@[k]],
        decreases n - i,
    {
        let v: u128 = order[i];
        incoming.push(gather_incoming(edges, base, v, Ghost(model)));
        assert(prior_values(downstream@).contains_key(v));
        assert(priors@.contains_key(v));
        let prior = match priors.get(&v) {
            Some(c) => *c,
            None => (Binary64 { bits: 0 }, Binary64 { bits: 0 }),
        };
        own.push(prior);
        i = i + 1;
    }
    Network { order, incoming, priors: own }
}

/// Every belief that a pass visits has a prior and a start value.
proof fn lemma_order_has_priors(
    downstream: Seq<Belief>,
    seed_id: u128,
    seed: nat,
    order: Seq<u128>,
)
    requires
        forall|i: int|
            0 <= i < order.len() ==> snapshot(downstream, seed_id, seed).contains_key(
                #[trigger] order[i],
            ) && order[i] != seed_id,
    ensures
        forall|i: int|
            0 <= i < order.len() ==> prior_values(downstream).contains_key(#[trigger] order[i]),
{
    assert forall|i: int| 0 <= i < order.len() implies prior_values(downstream).contains_key(
        #[trigger] order[i],
    ) by {
        assert(snapshot(downstream, seed_id, seed).contains_key(order[i]));
        lemma_same_beliefs(downstream, order[i]);
    }
}

proof fn lemma_same_beliefs(beliefs: Seq<Belief>, id: u128)
    ensures
        crate::inference::belief_values(beliefs).contains_key(id) <==> prior_values(
            beliefs,
        ).contains_key(id),
    decreases beliefs.len(),
{
    if beliefs.len() > 0 {
        lemma_same_beliefs(beliefs.drop_last(), id);
    }
}

/// What time leaves of a count: of its distance to one, the part that remains. It
/// does not go beyond the count.
pub open spec fn decayed_count(count: nat, retention: nat) -> nat {
    let kept = times(retention, distance(count, one()));
    if count >= one() {
        if plus(one(), kept) <= count {
            plus(one(), kept)
        } else {
            count
        }
    } else {
        if distance(one(), kept) >= count {
            distance(one(), kept)
        } else {
            count
        }
    }
}

/// What time leaves of a count. `retention` is the part that remains after the
/// elapsed days, the decay factor to their power.
pub fn decay_count(count: Binary64, retention: Probability) -> (r: Binary64)
    requires
        is_count(count),
    ensures
        is_count(r),
        r.units() == decayed_count(count.units(), retention.units()),
{
    let unit = Binary64 { bits: ONE_BITS };
    let away = count.distance_to(unit);
    let kept = retention.value().product(away);
    proof {
        lemma_one_units();
        lemma_units_order(count, unit);
        lemma_away_at_most(count, away);
    }
    if count.bits >= ONE_BITS {
        let r = kept.sum(unit);
        proof {
            lemma_small_summand(kept.bits, ONE_BITS, r.bits);
            lemma_units_order(r, count);
        }
        if r.bits <= count.bits {
            r
        } else {
            count
        }
    } else {
        let r = unit.distance_to(kept);
        proof {
            lemma_units_order(r, count);
        }
        if r.bits >= count.bits {
            r
        } else {
            count
        }
    }
}

/// The part of a count that remains of a belief that is grounded with the given
/// mass: what is lost shrinks as the mass grows.
pub open spec fn grounded_retention(retention: nat, mass: nat) -> nat {
    let held = complement(quotient(complement(retention), plus(one(), mass)));
    if mass == 0 || held < retention {
        retention
    } else {
        held
    }
}

/// The part of a count that remains of a belief that is grounded with the given
/// mass.
pub fn ground_retention(retention: Probability, mass: Binary64) -> (r: Probability)
    requires
        is_mass(mass),
    ensures
        r.units() == grounded_retention(retention.units(), mass.units()),
{
    let unit = Binary64 { bits: ONE_BITS };
    let kept = retention.value();
    proof {
        lemma_one_units();
        lemma_units_order(Binary64 { bits: 0 }, mass);
    }
    if mass.bits == 0 {
        return retention;
    }
    let lost = unit.distance_to(kept);
    proof {
        lemma_small_sum_finite(mass.bits, ONE_BITS);
    }
    let share = match mass.checked_sum(unit) {
        Some(total) => total,
        None => unit,
    };
    proof {
        lemma_pattern_representable(ONE_BITS);
        lemma_round_at_least(53, one() + mass.units(), 1, one());
        lemma_units_order(share, unit);
    }
    let held = unit.distance_to(lost.quotient_by(share));
    proof {
        lemma_units_order(held, kept);
    }
    if held.bits < kept.bits {
        retention
    } else {
        Probability::from_unit_range(held)
    }
}

/// The distance of a count to one is no more than the count, or than one.
proof fn lemma_away_at_most(count: Binary64, away: Binary64)
    requires
        is_count(count),
        away.units() == distance(count.units(), one()),
    ensures
        count.bits >= ONE_BITS ==> away.bits <= count.bits,
        count.bits < ONE_BITS ==> away.bits <= ONE_BITS,
{
    lemma_one_units();
    let top = if count.bits >= ONE_BITS {
        count
    } else {
        Binary64 { bits: ONE_BITS }
    };
    lemma_units_order(count, Binary64 { bits: ONE_BITS });
    lemma_pattern_representable(top.bits);
    let gap: nat = if count.units() >= one() {
        (count.units() - one()) as nat
    } else {
        (one() - count.units()) as nat
    };
    lemma_round_at_most(53, gap, 1, top.units());
    lemma_units_order(top, away);
}

/// The mass that grounds a belief; nothing where none is given.
pub open spec fn mass_of(masses: Map<u128, Binary64>, id: u128) -> nat {
    if masses.contains_key(id) {
        masses[id].units()
    } else {
        0
    }
}

/// A belief whose counts time changes: not an experiential one, and noticeably.
pub open spec fn ages(belief: Belief, retention: nat) -> bool {
    &&& belief.memory_type != MemoryType::Experiential
    &&& {
        ||| distance(decayed_count(belief.alpha.units(), retention), belief.alpha.units())
            > pattern_units(CHANGED_BITS)
        ||| distance(decayed_count(belief.beta.units(), retention), belief.beta.units())
            > pattern_units(CHANGED_BITS)
    }
}

/// The counts that time changes, with what it leaves of them. Of a grounded belief
/// more remains.
pub open spec fn decayed_counts(
    beliefs: Seq<Belief>,
    retained: Seq<Probability>,
    masses: Map<u128, Binary64>,
) -> Seq<(u128, (nat, nat))>
    decreases beliefs.len(),
{
    if beliefs.len() == 0 {
        Seq::empty()
    } else {
        let b = beliefs.last();
        let r = grounded_retention(retained.last().units(), mass_of(masses, b.id));
        let before = decayed_counts(beliefs.drop_last(), retained.drop_last(), masses);
        if ages(b, r) {
            before.push(
                (b.id, (decayed_count(b.alpha.units(), r), decayed_count(b.beta.units(), r))),
            )
        } else {
            before
        }
    }
}

/// The error for the first belief that ages and whose counts are no counts, or whose
/// mass is none.
pub open spec fn refused_counts(beliefs: Seq<Belief>, masses: Map<u128, Binary64>) -> Option<
    GraphError,
>
    decreases beliefs.len(),
{
    if beliefs.len() == 0 {
        None
    } else if refused_counts(beliefs.drop_last(), masses) is Some {
        refused_counts(beliefs.drop_last(), masses)
    } else if beliefs.last().memory_type == MemoryType::Experiential {
        None
    } else if !is_count(beliefs.last().alpha) {
        Some(GraphError::CountOutOfRange(beliefs.last().alpha))
    } else if !is_count(beliefs.last().beta) {
        Some(GraphError::CountOutOfRange(beliefs.last().beta))
    } else if masses.contains_key(beliefs.last().id) && !is_mass(masses[beliefs.last().id]) {
        Some(GraphError::CountOutOfRange(masses[beliefs.last().id]))
    } else {
        None
    }
}

proof fn lemma_refused_counts_prefix(beliefs: Seq<Belief>, masses: Map<u128, Binary64>, n: int)
    requires
        0 <= n <= beliefs.len(),
        refused_counts(beliefs.take(n), masses) is Some,
    ensures
        refused_counts(beliefs, masses) == refused_counts(beliefs.take(n), masses),
    decreases beliefs.len(),
{
    if n == beliefs.len() {
        assert(beliefs.take(n) =~= beliefs);
    } else {
        assert(beliefs.drop_last().take(n) =~= beliefs.take(n));
        lemma_refused_counts_prefix(beliefs.drop_last(), masses, n);
    }
}

impl InferenceEngine {
    /// The counts that time changes. `retained` holds, for each belief, the decay
    /// factor to the power of the days since it was last activated, `masses` the
    /// masses of the beliefs that are grounded.
    pub fn decay_evidence(
        &self,
        beliefs: &[Belief],
        retained: &[Probability],
        masses: &HashMap<u128, Binary64>,
    ) -> (r: Result<Vec<(u128, Counts)>, GraphError>)
        requires
            beliefs@.len() == retained@.len(),
        ensures
            match r {
                Ok(updates) => {
                    &&& refused_counts(beliefs@, masses@) is None
                    &&& counts_view(updates@) == decayed_counts(beliefs@, retained@, masses@)
                    &&& forall|i: int|
                        0 <= i < updates@.len() ==> are_counts((#[trigger] updates@[i]).1)
                },
                Err(e) => refused_counts(beliefs@, masses@) == Some(e),
            },
    {
        let mut r: Vec<(u128, Counts)> = Vec::new();
        let n: usize = beliefs.len();
        let mut i: usize = 0;
        proof {
            assert(beliefs@.take(0) =~= Seq::empty());
            assert(counts_view(r@) =~= Seq::empty());
        }
        while i < n
            invariant
                i <= n,
                n == beliefs@.len(),
                n == retained@.len(),
                refused_counts(beliefs@.take(i as int), masses@) is None,
                counts_view(r@) == decayed_counts(
                    beliefs@.take(i as int),
                    retained@.take(i as int),
                    masses@,
                ),
                forall|k: int| 0 <= k < r@.len() ==> are_counts((#[trigger] r@[k]).1),
            decreases n - i,
        {
            let b = &beliefs[i];
            let ghost before = counts_view(r@);
            proof {
                assert(beliefs@.take(i + 1).drop_last() =~= beliefs@.take(i as int));
                assert(retained@.take(i + 1).drop_last() =~= retained@.take(i as int));
            }
            if b.memory_type != MemoryType::Experiential {
                let mass = match masses.get(&b.id) {
                    Some(m) => *m,
                    None => Binary64 { bits: 0 },
                };
                if b.alpha.bits >= SUMMAND_LIMIT || b.beta.bits >= SUMMAND_LIMIT || mass.bits
                    >= INFINITY_BITS {
                    let e = if b.alpha.bits >= SUMMAND_LIMIT {
                        GraphError::CountOutOfRange(b.alpha)
                    } else if b.beta.bits >= SUMMAND_LIMIT {
                        GraphError::CountOutOfRange(b.beta)
                    } else {
                        GraphError::CountOutOfRange(mass)
                    };
                    proof {
                        lemma_refused_counts_prefix(beliefs@, masses@, i + 1);
                    }
                    return Err(e);
                }
                let retention = ground_retention(retained[i], mass);
                let alpha = decay_count(b.alpha, retention);
                let beta = decay_count(b.beta, retention);
                let alpha_gap = alpha.distance_to(b.alpha);
                let beta_gap = beta.distance_to(b.beta);
                proof {
                    lemma_units_order(Binary64 { bits: CHANGED_BITS }, alpha_gap);
                    lemma_units_order(Binary64 { bits: CHANGED_BITS }, beta_gap);
                }
                if alpha_gap.bits > CHANGED_BITS || beta_gap.bits > CHANGED_BITS {
                    r.push((b.id, (alpha, beta)));
                    assert(counts_view(r@) =~= before.push((b.id, counts_units((alpha, beta)))));
                }
            }
            i = i + 1;
        }
        assert(beliefs@.take(n as int) =~= beliefs@);
        assert(retained@.take(n as int) =~= retained@);
        Ok(r)
    }
}

/// Evidence only adds: support and causes do not lower the count in favour of a
/// belief, defeats do not lower the count against it.
pub proof fn law_evidence_only_adds(
    prior: Counts,
    incoming: Seq<EdgeTuple>,
    val: Map<u128, nat>,
)
    ensures
        posterior(counts_units(prior), incoming, val).0 >= prior.0.units(),
        posterior(counts_units(prior), incoming, val).1 >= prior.1.units(),
    decreases incoming.len(),
{
    if incoming.len() > 0 {
        let shorter = incoming.drop_last();
        let e = incoming.last();
        law_evidence_only_adds(prior, shorter, val);
        lemma_pattern_representable(prior.0.bits);
        lemma_pattern_representable(prior.1.bits);
        let added = evidence(e.3.units(), val[e.0]);
        lemma_round_at_least(
            53,
            count_for(prior.0.units(), shorter, val) + added,
            1,
            prior.0.units(),
        );
        lemma_round_at_least(
            53,
            count_against(prior.1.units(), shorter, val) + added,
            1,
            prior.1.units(),
        );
    }
}

/// A supporting or causing edge leaves the count against a belief as it is, a
/// defeating edge the count in its favour, and a contradiction both.
pub proof fn law_evidence_counts_on_one_side(
    prior: (nat, nat),
    incoming: Seq<EdgeTuple>,
    e: EdgeTuple,
    val: Map<u128, nat>,
)
    ensures
        e.2 != EdgeType::Defeats ==> posterior(prior, incoming.push(e), val).1 == posterior(
            prior,
            incoming,
            val,
        ).1,
        !raises(e.2) ==> posterior(prior, incoming.push(e), val).0 == posterior(
            prior,
            incoming,
            val,
        ).0,
{
    assert(incoming.push(e).drop_last() =~= incoming);
}

/// One more supporting or causing edge does not lower the share of the counts in
/// favour of a belief, one more defeating edge does not raise it. The share is
/// compared exactly, before the mean is rounded.
pub proof fn law_evidence_moves_the_share_its_way(
    prior: Counts,
    incoming: Seq<EdgeTuple>,
    e: EdgeTuple,
    val: Map<u128, nat>,
)
    ensures
        ({
            let before = posterior(counts_units(prior), incoming, val);
            let after = posterior(counts_units(prior), incoming.push(e), val);
            &&& raises(e.2) ==> after.0 * (before.0 + before.1) >= before.0 * (after.0 + after.1)
            &&& e.2 == EdgeType::Defeats ==> after.0 * (before.0 + before.1) <= before.0 * (after.0
                + after.1)
        }),
{
    let before = posterior(counts_units(prior), incoming, val);
    let after = posterior(counts_units(prior), incoming.push(e), val);
    let added = evidence(e.3.units(), val[e.0]);
    law_evidence_counts_on_one_side(counts_units(prior), incoming, e, val);
    lemma_counts_representable(prior, incoming, val);
    assert(incoming.push(e).drop_last() =~= incoming);
    lemma_round_at_least(53, before.0 + added, 1, before.0);
    lemma_round_at_least(53, before.1 + added, 1, before.1);
    let (a, b, c, d) = (before.0, before.1, after.0, after.1);
    if raises(e.2) {
        assert(c * (a + b) >= a * (c + d)) by (nonlinear_arith)
            requires
                c >= a,
                d == b,
                b >= 0,
        ;
    }
    if e.2 == EdgeType::Defeats {
        assert(c * (a + b) <= a * (c + d)) by (nonlinear_arith)
            requires
                c == a,
                d >= b,
                a >= 0,
        ;
    }
}

proof fn lemma_counts_representable(
    prior: Counts,
    incoming: Seq<EdgeTuple>,
    val: Map<u128, nat>,
)
    ensures
        representable(53, posterior(counts_units(prior), incoming, val).0),
        representable(53, posterior(counts_units(prior), incoming, val).1),
    decreases incoming.len(),
{
    if incoming.len() == 0 {
        lemma_pattern_representable(prior.0.bits);
        lemma_pattern_representable(prior.1.bits);
    } else {
        let shorter = incoming.drop_last();
        let e = incoming.last();
        let added = evidence(e.3.units(), val[e.0]);
        lemma_counts_representable(prior, shorter, val);
        lemma_round_representable(53, count_for(prior.0.units(), shorter, val) + added, 1);
        lemma_round_representable(53, count_against(prior.1.units(), shorter, val) + added, 1);
    }
}

/// The order of the edges into a belief shows at most in the last places of its
/// counts: two orders of `n` edges give counts that differ by no more than `8 n`
/// parts in `2^53`.
pub proof fn law_evidence_order_shows_in_last_places_only(
    prior: (nat, nat),
    a: Seq<EdgeTuple>,
    b: Seq<EdgeTuple>,
    val: Map<u128, nat>,
)
    requires
        a.to_multiset() == b.to_multiset(),
        a.len() <= pow2(51),
    ensures
        ({
            let x = posterior(prior, a, val);
            let y = posterior(prior, b, val);
            let parts = pow2(53);
            let n = a.len();
            &&& x.0 * parts <= y.0 * parts + 8 * n * y.0
            &&& y.0 * parts <= x.0 * parts + 8 * n * x.0
            &&& x.1 * parts <= y.1 * parts + 8 * n * y.1
            &&& y.1 * parts <= x.1 * parts + 8 * n * x.1
        }),
{
    broadcast use vstd::seq_lib::group_to_multiset_ensures;

    assert(a.len() == a.to_multiset().len() && b.len() == b.to_multiset().len());
    lemma_counts_close(prior.0, a, b, val, false);
    lemma_counts_close(prior.1, a, b, val, true);
}

/// Adds the evidence of an edge on one side, without rounding.
spec fn exact_evidence(val: Map<u128, nat>, against: bool) -> spec_fn(nat, EdgeTuple) -> nat {
    |acc: nat, e: EdgeTuple|
        acc + if (against && e.2 == EdgeType::Defeats) || (!against && raises(e.2)) {
            evidence(e.3.units(), val[e.0])
        } else {
            0
        }
}

spec fn rounded_count(
    prior: nat,
    incoming: Seq<EdgeTuple>,
    val: Map<u128, nat>,
    against: bool,
) -> nat {
    if against {
        count_against(prior, incoming, val)
    } else {
        count_for(prior, incoming, val)
    }
}

/// A rounded count is the exact one, but for two parts for each edge.
proof fn lemma_count_close(prior: nat, incoming: Seq<EdgeTuple>, val: Map<u128, nat>, against: bool)
    requires
        incoming.len() <= pow2(51),
    ensures
        ({
            let r = rounded_count(prior, incoming, val, against);
            let s = incoming.fold_left(prior, exact_evidence(val, against));
            let n = incoming.len();
            &&& r * pow2(53) <= s * pow2(53) + 2 * n * s
            &&& s * pow2(53) <= r * pow2(53) + 2 * n * s
        }),
    decreases incoming.len(),
{
    let g = pow2(53);
    lemma2_to64();
    lemma2_to64_rest();
    let step = exact_evidence(val, against);
    let s = incoming.fold_left(prior, step);
    let r = rounded_count(prior, incoming, val, against);
    let n = incoming.len();
    if n > 0 {
        let shorter = incoming.drop_last();
        let e = incoming.last();
        lemma_count_close(prior, shorter, val, against);
        let t = shorter.fold_left(prior, step);
        let q = rounded_count(prior, shorter, val, against);
        let m = (n - 1) as nat;
        let counts = (against && e.2 == EdgeType::Defeats) || (!against && raises(e.2));
        let added: nat = if counts {
            evidence(e.3.units(), val[e.0])
        } else {
            0
        };
        assert(s == t + added);
        assert(2 * n * s == 2 * m * s + 2 * s && 2 * m * t <= 2 * m * s) by (nonlinear_arith)
            requires
                n == m + 1,
                t <= s,
        ;
        assert((t + added) * g == t * g + added * g && (q + added) * g == q * g + added * g)
            by (nonlinear_arith);
        if counts {
            assert(r == plus(q, added));
            lemma_round_relative(53, q + added, 1);
            assert(r * 1 == r);
            assert(q <= 2 * t) by (nonlinear_arith)
                requires
                    q * g <= t * g + 2 * m * t,
                    2 * m <= g,
                    g > 0,
            {
                assert(2 * m * t <= g * t);
                assert(q * g <= (2 * t) * g);
            }
        } else {
            assert(r == q && s == t);
        }
    }
}

/// Counts of the same evidence in another order are close to each other.
proof fn lemma_counts_close(
    prior: nat,
    a: Seq<EdgeTuple>,
    b: Seq<EdgeTuple>,
    val: Map<u128, nat>,
    against: bool,
)
    requires
        a.to_multiset() == b.to_multiset(),
        a.len() == b.len(),
        a.len() <= pow2(51),
    ensures
        ({
            let x = rounded_count(prior, a, val, against);
            let y = rounded_count(prior, b, val, against);
            &&& x * pow2(53) <= y * pow2(53) + 8 * a.len() * y
            &&& y * pow2(53) <= x * pow2(53) + 8 * a.len() * x
        }),
{
    let step = exact_evidence(val, against);
    assert forall|x: EdgeTuple, y: EdgeTuple, v: nat| #[trigger]
        step(step(v, x), y) == step(step(v, y), x) by {}
    vstd::seq_lib::lemma_fold_left_permutation(a, b, step, prior);
    lemma_count_close(prior, a, val, against);
    lemma_count_close(prior, b, val, against);
    let s = a.fold_left(prior, step);
    let n = a.len();
    lemma2_to64();
    lemma2_to64_rest();
    lemma_close_counts(
        rounded_count(prior, a, val, against),
        rounded_count(prior, b, val, against),
        s,
        n,
        pow2(53),
    );
    lemma_close_counts(
        rounded_count(prior, b, val, against),
        rounded_count(prior, a, val, against),
        s,
        n,
        pow2(53),
    );
}

proof fn lemma_close_counts(x: nat, y: nat, s: nat, n: nat, g: nat)
    requires
        4 * n <= g,
        g > 0,
        x * g <= s * g + 2 * n * s,
        s * g <= y * g + 2 * n * s,
    ensures
        x * g <= y * g + 8 * n * y,
{
    assert(s <= 2 * y) by (nonlinear_arith)
        requires
            4 * n <= g,
            g > 0,
            s * g <= y * g + 2 * n * s,
    {
        assert(2 * (2 * n * s) <= g * s);
        assert(s * g <= (2 * y) * g);
    }
    assert(4 * n * s <= 8 * n * y) by (nonlinear_arith)
        requires
            s <= 2 * y,
    ;
    assert(4 * n * s == 2 * n * s + 2 * n * s) by (nonlinear_arith);
}

/// A belief without edges has the counts of its prior.
pub proof fn law_without_evidence_the_prior_stands(prior: (nat, nat), val: Map<u128, nat>)
    ensures
        posterior(prior, Seq::empty(), val) == prior,
{
}

/// Time does not move a count past one: a count of at least one stays so, a count
/// of at most one stays so, and where nothing remains it is one.
pub proof fn law_counts_do_not_age_past_one(count: Binary64, retention: nat)
    ensures
        count.units() >= one() ==> decayed_count(count.units(), retention) >= one(),
        count.units() <= one() && retention <= one() ==> decayed_count(count.units(), retention)
            <= one(),
        decayed_count(count.units(), 0) == one(),
{
    lemma_one_units();
    lemma_pattern_representable(ONE_BITS);
    let away = distance(count.units(), one());
    let kept = times(retention, away);
    lemma_round_at_least(53, one() + kept, 1, one());
    lemma_no_product(away);
    lemma_round_exact(53, one(), 1);
    if count.units() <= one() {
        let gap = (one() - count.units()) as nat;
        lemma_round_at_most(53, gap, 1, one());
        assert(away <= one());
        if retention <= one() {
            vstd::arithmetic::mul::lemma_mul_inequality(
                away as int,
                one() as int,
                retention as int,
            );
            vstd::arithmetic::mul::lemma_mul_inequality(
                retention as int,
                one() as int,
                one() as int,
            );
            vstd::arithmetic::mul::lemma_mul_is_commutative(away as int, retention as int);
            vstd::arithmetic::mul::lemma_mul_is_commutative(one() as int, retention as int);
            lemma_round_at_most(53, retention * away, one(), one());
            lemma_round_at_most(53, (one() - kept) as nat, 1, one());
            if count.units() == one() {
                lemma_round_zero(53, 1);
                assert(away == 0);
                vstd::arithmetic::mul::lemma_mul_basics(retention as int);
                lemma_round_zero(53, one());
                assert(kept == 0);
            }
        }
    }
}

/// Time brings a count nearer to one and never beyond what it was.
pub proof fn law_time_does_not_pass_the_count(count: nat, retention: nat)
    ensures
        count >= one() ==> decayed_count(count, retention) <= count,
        count <= one() ==> decayed_count(count, retention) >= count,
{
    if count == one() {
        lemma_one_units();
        lemma_pattern_representable(ONE_BITS);
        lemma_round_at_least(53, one() + times(retention, distance(count, one())), 1, one());
    }
}

/// The more of a count remains, the farther from one it stays.
pub proof fn law_more_retained_stays_farther(count: nat, less: nat, more: nat)
    requires
        less <= more <= one(),
    ensures
        count >= one() ==> decayed_count(count, less) <= decayed_count(count, more),
        count < one() ==> decayed_count(count, less) >= decayed_count(count, more),
{
    lemma_one_units();
    let away = distance(count, one());
    let kept = times(less, away);
    let kept_more = times(more, away);
    vstd::arithmetic::mul::lemma_mul_inequality(less as int, more as int, away as int);
    assert((less * away) * one() <= (more * away) * one()) by (nonlinear_arith)
        requires
            less * away <= more * away,
            one() > 0,
    ;
    lemma_round_monotone(53, less * away, one(), more * away, one());
    assert(kept <= kept_more);
    lemma_round_monotone(53, one() + kept, 1, one() + kept_more, 1);
    if count < one() {
        lemma_pattern_representable(ONE_BITS);
        lemma_round_at_most(53, (one() - count) as nat, 1, one());
        assert(more * away <= one() * one()) by (nonlinear_arith)
            requires
                more <= one(),
                away <= one(),
        ;
        lemma_round_at_most(53, more * away, one(), one());
        lemma_round_monotone(53, (one() - kept_more) as nat, 1, (one() - kept) as nat, 1);
    }
}

/// Without grounds, what remains of a count is what time leaves. The greater the
/// mass that grounds a belief, the more of its counts remains: never less than
/// without grounds, and never more than all.
pub proof fn law_grounds_hold_counts(retention: nat, mass: nat, more_mass: nat)
    requires
        retention <= one(),
        mass <= more_mass,
    ensures
        grounded_retention(retention, 0) == retention,
        retention <= grounded_retention(retention, mass) <= grounded_retention(
            retention,
            more_mass,
        ) <= one(),
{
    lemma_one_units();
    lemma_pattern_representable(ONE_BITS);
    let u = one();
    let lost = complement(retention);
    lemma_round_at_most(53, (u - retention) as nat, 1, u);
    let share = plus(u, mass);
    let more = plus(u, more_mass);
    lemma_round_at_least(53, u + mass, 1, u);
    lemma_round_monotone(53, u + mass, 1, u + more_mass, 1);
    assert((lost * u) * share <= (lost * u) * more) by (nonlinear_arith)
        requires
            share <= more,
            lost * u >= 0,
    ;
    lemma_round_monotone(53, lost * u, more, lost * u, share);
    let gone = quotient(lost, share);
    let gone_more = quotient(lost, more);
    assert(lost * u <= u * share && lost * u <= u * more) by (nonlinear_arith)
        requires
            lost <= u,
            u <= share,
            u <= more,
    ;
    lemma_round_at_most(53, lost * u, share, u);
    lemma_round_at_most(53, lost * u, more, u);
    lemma_round_monotone(53, (u - gone) as nat, 1, (u - gone_more) as nat, 1);
    lemma_round_at_most(53, (u - gone) as nat, 1, u);
    lemma_round_at_most(53, (u - gone_more) as nat, 1, u);
}

/// Grounded beliefs resist decay: a mass of zero leaves the counts as they decay, a
/// greater mass leaves a count no nearer to one, and no count goes beyond what it
/// was.
pub proof fn law_grounded_beliefs_resist_decay(
    count: nat,
    retention: nat,
    mass: nat,
    more_mass: nat,
)
    requires
        retention <= one(),
        mass <= more_mass,
    ensures
        decayed_count(count, grounded_retention(retention, 0)) == decayed_count(count, retention),
        ({
            let left = decayed_count(count, grounded_retention(retention, mass));
            let held = decayed_count(count, grounded_retention(retention, more_mass));
            &&& count >= one() ==> left <= held <= count
            &&& count < one() ==> count <= held <= left
        }),
{
    law_grounds_hold_counts(retention, mass, more_mass);
    law_more_retained_stays_farther(
        count,
        grounded_retention(retention, mass),
        grounded_retention(retention, more_mass),
    );
    law_time_does_not_pass_the_count(count, grounded_retention(retention, more_mass));
}

proof fn lemma_no_product(a: nat)
    ensures
        times(0, a) == 0,
{
    lemma_one_units();
    vstd::arithmetic::mul::lemma_mul_basics(a as int);
    lemma_round_zero(53, one());
}

/// Experiential beliefs do not age.
pub proof fn law_experience_keeps_its_counts(
    beliefs: Seq<Belief>,
    retained: Seq<Probability>,
    masses: Map<u128, Binary64>,
)
    requires
        beliefs.len() == retained.len(),
        forall|i: int|
            0 <= i < beliefs.len() ==> (#[trigger] beliefs[i]).memory_type
                == MemoryType::Experiential,
    ensures
        decayed_counts(beliefs, retained, masses).len() == 0,
    decreases beliefs.len(),
{
    if beliefs.len() > 0 {
        assert(beliefs[beliefs.len() - 1] == beliefs.last());
        assert forall|i: int| 0 <= i < beliefs.drop_last().len() implies (
        #[trigger] beliefs.drop_last()[i]).memory_type == MemoryType::Experiential by {
            assert(beliefs[i].memory_type == MemoryType::Experiential);
        }
        law_experience_keeps_its_counts(beliefs.drop_last(), retained.drop_last(), masses);
    }
}

/// A propagation of evidence reports only downstream beliefs, and never the seed.
pub proof fn law_only_downstream_is_revised(
    external: Map<u128, nat>,
    seed_id: u128,
    seed: nat,
    downstream: Seq<Belief>,
    edges: Seq<EdgeTuple>,
    i: int,
)
    requires
        0 <= i < posteriors(external, seed_id, seed, downstream, edges).len(),
    ensures
        ({
            let id = posteriors(external, seed_id, seed, downstream, edges)[i].0;
            id != seed_id && exists|k: int|
                0 <= k < downstream.len() && (#[trigger] downstream[k]).id == id
        }),
{
    let base = start_values(external, downstream, seed_id, seed);
    let ids = swept_ids(downstream, seed_id);
    let order = ascending(ids);
    let priors = prior_values(downstream);
    let val = settled_means(order, edges, base, priors, base, MAX_SWEEPS as nat);
    lemma_revised_in_order(order, edges, base, priors, val, i);
    let leq = |a: u128, b: u128| a <= b;
    ids.lemma_sort_by_ensures(leq);
    let id = posteriors(external, seed_id, seed, downstream, edges)[i].0;
    assert(ids.contains(id));
    lemma_swept_from(downstream, seed_id, id);
}

proof fn lemma_revised_in_order(
    order: Seq<u128>,
    edges: Seq<EdgeTuple>,
    base: Map<u128, nat>,
    priors: Map<u128, (nat, nat)>,
    val: Map<u128, nat>,
    i: int,
)
    requires
        0 <= i < revised(order, edges, base, priors, val).len(),
    ensures
        order.contains(revised(order, edges, base, priors, val)[i].0),
    decreases order.len(),
{
    if order.len() > 0 {
        let shorter = order.drop_last();
        let before = revised(shorter, edges, base, priors, val);
        if i < before.len() {
            lemma_revised_in_order(shorter, edges, base, priors, val, i);
            let k = choose|k: int| 0 <= k < shorter.len() && shorter[k] == before[i].0;
            assert(order[k] == before[i].0);
        } else {
            assert(order[order.len() - 1] == order.last());
        }
    }
}

/// Means that another pass leaves as they are.
pub open spec fn is_settled(
    order: Seq<u128>,
    edges: Seq<EdgeTuple>,
    base: Map<u128, nat>,
    priors: Map<u128, (nat, nat)>,
    val: Map<u128, nat>,
) -> bool {
    forall|i: int|
        0 <= i < order.len() ==> val[#[trigger] order[i]] == posterior_mean(
            priors[order[i]],
            edges_into(edges, base, order[i]),
            val,
        )
}

/// Propagating again changes nothing: where beliefs hold the means that their
/// evidence entails, a propagation reports none of them.
pub proof fn law_propagating_again_changes_nothing(
    external: Map<u128, nat>,
    seed_id: u128,
    seed: nat,
    downstream: Seq<Belief>,
    edges: Seq<EdgeTuple>,
)
    requires
        is_settled(
            ascending(swept_ids(downstream, seed_id)),
            edges,
            start_values(external, downstream, seed_id, seed),
            prior_values(downstream),
            start_values(external, downstream, seed_id, seed),
        ),
    ensures
        posteriors(external, seed_id, seed, downstream, edges).len() == 0,
{
    let base = start_values(external, downstream, seed_id, seed);
    let order = ascending(swept_ids(downstream, seed_id));
    let priors = prior_values(downstream);
    let ids = swept_ids(downstream, seed_id);
    let leq = |a: u128, b: u128| a <= b;
    ids.lemma_sort_by_ensures(leq);
    lemma_order_in_snapshot(downstream, seed_id, seed, order);
    assert forall|i: int| 0 <= i < order.len() implies base.contains_key(#[trigger] order[i]) by {
        assert(snapshot(downstream, seed_id, seed).contains_key(order[i]));
    }
    lemma_settled_pass(order, edges, base, priors, 0);
    lemma_nothing_revised(order, edges, base, priors);
}

proof fn lemma_settled_pass(
    order: Seq<u128>,
    edges: Seq<EdgeTuple>,
    base: Map<u128, nat>,
    priors: Map<u128, (nat, nat)>,
    i: int,
)
    requires
        is_settled(order, edges, base, priors, base),
        forall|k: int| 0 <= k < order.len() ==> base.contains_key(#[trigger] order[k]),
        0 <= i,
    ensures
        pass(order, edges, base, priors, base, i).0 == base,
        pass(order, edges, base, priors, base, i).1,
    decreases order.len() - i,
{
    if i < order.len() {
        let v = order[i];
        assert(base.contains_key(v));
        assert(base.insert(v, base[v]) =~= base);
        lemma_no_gap(base[v]);
        lemma_settled_pass(order, edges, base, priors, i + 1);
    }
}

proof fn lemma_nothing_revised(
    order: Seq<u128>,
    edges: Seq<EdgeTuple>,
    base: Map<u128, nat>,
    priors: Map<u128, (nat, nat)>,
)
    requires
        is_settled(order, edges, base, priors, base),
    ensures
        revised(order, edges, base, priors, base).len() == 0,
    decreases order.len(),
{
    if order.len() > 0 {
        let shorter = order.drop_last();
        assert forall|i: int| 0 <= i < shorter.len() implies base[#[trigger] shorter[i]]
            == posterior_mean(priors[shorter[i]], edges_into(edges, base, shorter[i]), base) by {
            assert(shorter[i] == order[i]);
        }
        lemma_nothing_revised(shorter, edges, base, priors);
        assert(order[order.len() - 1] == order.last());
        lemma_no_gap(base[order.last()]);
    }
}

/// A rank that grows along every propagating edge between the given beliefs and
/// stays below `limit`: there is no cycle among them, and no path is longer.
pub open spec fn layered_by(
    ids: Seq<u128>,
    edges: Seq<EdgeTuple>,
    limit: nat,
    rank: spec_fn(u128) -> nat,
) -> bool {
    &&& forall|i: int| 0 <= i < ids.len() ==> rank(#[trigger] ids[i]) < limit
    &&& forall|k: int|
        0 <= k < edges.len() && ids.contains((#[trigger] edges[k]).0) && ids.contains(edges[k].1)
            && edges[k].2 != EdgeType::Contradicts ==> rank(edges[k].0) < rank(edges[k].1)
}

/// The propagating edges between the given beliefs form no cycle, and every path
/// of them visits at most `limit` beliefs.
pub open spec fn is_layered(ids: Seq<u128>, edges: Seq<EdgeTuple>, limit: nat) -> bool {
    exists|rank: spec_fn(u128) -> nat| layered_by(ids, edges, limit, rank)
}

/// The counts that a report holds for a belief.
pub open spec fn is_reported(report: Seq<(u128, (nat, nat))>, id: u128, counts: (nat, nat)) -> bool {
    exists|k: int| 0 <= k < report.len() && #[trigger] report[k] == (id, counts)
}

/// `after` holds the beliefs `before` when a report has been written to them: the
/// reported ones have the mean of their new counts, all keep their priors.
pub open spec fn is_written(
    before: Seq<Belief>,
    report: Seq<(u128, (nat, nat))>,
    after: Seq<Belief>,
) -> bool {
    &&& after.len() == before.len()
    &&& forall|i: int|
        0 <= i < before.len() ==> {
            let b = before[i];
            &&& (#[trigger] after[i]).id == b.id
            &&& after[i].alpha0 == b.alpha0 && after[i].beta0 == b.beta0
            &&& forall|counts: (nat, nat)| #[trigger]
                is_reported(report, b.id, counts) ==> after[i].probability.units() == mean_of(
                    counts.0,
                    counts.1,
                )
            &&& (forall|counts: (nat, nat)| !#[trigger] is_reported(report, b.id, counts))
                ==> after[i].probability == b.probability
        }
}

/// Propagation is idempotent: where the edges between the beliefs form no cycle and
/// their paths are no longer than the number of passes, a second propagation from
/// the counts that the first one reported reports nothing.
pub proof fn law_second_propagation_reports_nothing(
    external: Map<u128, nat>,
    seed_id: u128,
    seed: nat,
    before: Seq<Belief>,
    edges: Seq<EdgeTuple>,
    after: Seq<Belief>,
)
    requires
        is_layered(swept_ids(before, seed_id), edges, MAX_SWEEPS as nat),
        is_written(before, posteriors(external, seed_id, seed, before, edges), after),
    ensures
        posteriors(external, seed_id, seed, after, edges).len() == 0,
{
    let ids = swept_ids(before, seed_id);
    let rank = choose|rank: spec_fn(u128) -> nat|
        layered_by(ids, edges, MAX_SWEEPS as nat, rank);
    let order = ascending(ids);
    let priors = prior_values(before);
    let base = start_values(external, before, seed_id, seed);
    let base2 = start_values(external, after, seed_id, seed);
    let n = MAX_SWEEPS as nat;
    let report = posteriors(external, seed_id, seed, before, edges);
    lemma_written_alike(before, report, after, seed_id);
    let leq = |a: u128, b: u128| a <= b;
    ids.lemma_sort_by_ensures(leq);
    assert forall|x: u128| order.contains(x) <==> ids.contains(x) by {
        assert(order.to_multiset() == ids.to_multiset());
        broadcast use vstd::seq_lib::group_to_multiset_ensures;
        assert(order.contains(x) <==> order.to_multiset().count(x) > 0);
        assert(ids.contains(x) <==> ids.to_multiset().count(x) > 0);
    }
    assert(layered_by(order, edges, n, rank)) by {
        assert forall|i: int| 0 <= i < order.len() implies rank(#[trigger] order[i]) < n by {
            assert(order.contains(order[i]));
            let k = choose|k: int| 0 <= k < ids.len() && ids[k] == order[i];
            assert(rank(ids[k]) < n);
        }
    }
    assert(swept_ids(after, seed_id) == ids);
    assert(prior_values(after) == priors);
    lemma_order_in_snapshot(before, seed_id, seed, order);
    assert forall|i: int| 0 <= i < order.len() implies base.contains_key(#[trigger] order[i])
        && base2.contains_key(order[i]) by {
        assert(snapshot(before, seed_id, seed).contains_key(order[i]));
    }
    assert(base.dom() =~= base2.dom());
    assert forall|v: u128| #[trigger] edges_into(edges, base2, v) == edges_into(
        edges,
        base,
        v,
    ) by {
        lemma_same_edges(edges, base, base2, v);
    }
    let fin = settled_means(order, edges, base, priors, base, n);
    let fin2 = settled_means(order, edges, base2, priors, base2, n);
    lemma_settles(order, edges, base, priors, base, n, 0, rank);
    lemma_settles(order, edges, base2, priors, base2, n, 0, rank);
    assert forall|v: u128| base.contains_key(v) && !order.contains(v) implies fin[v]
        == #[trigger] fin2[v] by {
        if v != seed_id && belief_values(before).contains_key(v) {
            lemma_swept(before, seed_id, v);
        }
        assert(belief_values(before).dom().contains(v) == belief_values(after).dom().contains(v));
        assert(fin[v] == base[v] && fin2[v] == base2[v]);
    }
    assert(is_stable(order, edges, base, priors, fin2, n, rank)) by {
        assert forall|i: int| 0 <= i < order.len() && rank(#[trigger] order[i]) < n implies fin2[order[i]]
            == posterior_mean(priors[order[i]], edges_into(edges, base, order[i]), fin2) by {
            assert(edges_into(edges, base2, order[i]) == edges_into(edges, base, order[i]));
        }
    }
    assert forall|i: int| 0 <= i < order.len() implies distance(
        posterior_mean(priors[#[trigger] order[i]], edges_into(edges, base2, order[i]), fin2),
        base2[order[i]],
    ) <= settled_units() by {
        let v = order[i];
        lemma_one_fixpoint(order, edges, base, priors, fin, fin2, n, rank, i);
        let counts = posterior(priors[v], edges_into(edges, base, v), fin);
        lemma_no_gap(fin[v]);
        if is_reported(report, v, counts) {
            lemma_written_reported(before, report, after, v, counts);
        } else {
            assert forall|c: (nat, nat)| !#[trigger] is_reported(report, v, c) by {
                if is_reported(report, v, c) {
                    let k = choose|k: int| 0 <= k < report.len() && #[trigger] report[k] == (v, c);
                    lemma_reported_counts(order, edges, base, priors, fin, k);
                }
            }
            lemma_written_unreported(before, report, after, v);
            if distance(mean_of(counts.0, counts.1), base[v]) > settled_units() {
                lemma_reports_changes(order, edges, base, priors, fin, i);
            }
        }
    }
    lemma_none_revised(order, edges, base2, priors, fin2);
}

/// The means of the beliefs of a rank below `k` are those that their sources
/// entail.
pub open spec fn is_stable(
    order: Seq<u128>,
    edges: Seq<EdgeTuple>,
    base: Map<u128, nat>,
    priors: Map<u128, (nat, nat)>,
    val: Map<u128, nat>,
    k: nat,
    rank: spec_fn(u128) -> nat,
) -> bool {
    forall|i: int|
        0 <= i < order.len() && rank(#[trigger] order[i]) < k ==> val[order[i]] == posterior_mean(
            priors[order[i]],
            edges_into(edges, base, order[i]),
            val,
        )
}

/// The counts of a belief depend on the means of the sources of its propagating
/// edges only.
proof fn lemma_posterior_depends(
    prior: (nat, nat),
    incoming: Seq<EdgeTuple>,
    a: Map<u128, nat>,
    b: Map<u128, nat>,
)
    requires
        forall|i: int|
            0 <= i < incoming.len() && (#[trigger] incoming[i]).2 != EdgeType::Contradicts
                ==> a[incoming[i].0] == b[incoming[i].0],
    ensures
        posterior(prior, incoming, a) == posterior(prior, incoming, b),
    decreases incoming.len(),
{
    if incoming.len() > 0 {
        let shorter = incoming.drop_last();
        assert forall|i: int|
            0 <= i < shorter.len() && (#[trigger] shorter[i]).2
                != EdgeType::Contradicts implies a[shorter[i].0] == b[shorter[i].0] by {
            assert(shorter[i] == incoming[i]);
        }
        lemma_posterior_depends(prior, shorter, a, b);
        assert(incoming[incoming.len() - 1] == incoming.last());
    }
}

/// The edges into a belief are edges.
pub proof fn lemma_edge_into(edges: Seq<EdgeTuple>, base: Map<u128, nat>, v: u128, i: int)
    requires
        0 <= i < edges_into(edges, base, v).len(),
    ensures
        edges_into(edges, base, v)[i].1 == v,
        base.contains_key(edges_into(edges, base, v)[i].0),
        exists|k: int| 0 <= k < edges.len() && #[trigger] edges[k] == edges_into(edges, base, v)[i],
    decreases edges.len(),
{
    if edges.len() > 0 {
        let shorter = edges.drop_last();
        let before = edges_into(shorter, base, v);
        if i < before.len() {
            lemma_edge_into(shorter, base, v, i);
            let k = choose|k: int| 0 <= k < shorter.len() && #[trigger] shorter[k] == before[i];
            assert(edges[k] == before[i]);
        } else {
            assert(edges[edges.len() - 1] == edges.last());
        }
    }
}

/// Which edges lead into a belief depends on which sources have a value only.
proof fn lemma_same_edges(edges: Seq<EdgeTuple>, a: Map<u128, nat>, b: Map<u128, nat>, v: u128)
    requires
        a.dom() =~= b.dom(),
    ensures
        edges_into(edges, b, v) == edges_into(edges, a, v),
    decreases edges.len(),
{
    if edges.len() > 0 {
        lemma_same_edges(edges.drop_last(), a, b, v);
        assert(a.dom().contains(edges.last().0) <==> b.dom().contains(edges.last().0));
    }
}

/// The mean of a belief of rank `r` is the same for means that agree below `r` and
/// outside.
proof fn lemma_mean_depends_below(
    order: Seq<u128>,
    edges: Seq<EdgeTuple>,
    base: Map<u128, nat>,
    priors: Map<u128, (nat, nat)>,
    a: Map<u128, nat>,
    b: Map<u128, nat>,
    limit: nat,
    rank: spec_fn(u128) -> nat,
    i: int,
)
    requires
        layered_by(order, edges, limit, rank),
        0 <= i < order.len(),
        forall|x: u128|
            base.contains_key(x) && (!order.contains(x) || rank(x) < rank(order[i])) ==> a[x]
                == #[trigger] b[x],
    ensures
        posterior_mean(priors[order[i]], edges_into(edges, base, order[i]), a) == posterior_mean(
            priors[order[i]],
            edges_into(edges, base, order[i]),
            b,
        ),
{
    let v = order[i];
    let incoming = edges_into(edges, base, v);
    assert(order.contains(v));
    assert forall|j: int|
        0 <= j < incoming.len() && (#[trigger] incoming[j]).2
            != EdgeType::Contradicts implies a[incoming[j].0] == b[incoming[j].0] by {
        lemma_edge_into(edges, base, v, j);
        let k = choose|k: int| 0 <= k < edges.len() && #[trigger] edges[k] == incoming[j];
        assert(edges[k].1 == v);
        if order.contains(edges[k].0) {
            assert(rank(edges[k].0) < rank(v));
        }
        assert(a[edges[k].0] == b[edges[k].0]);
    }
    lemma_posterior_depends(priors[v], incoming, a, b);
}

/// A pass over means that are settled below rank `k` leaves them, and settles
/// those of rank `k`.
proof fn lemma_pass_settles(
    order: Seq<u128>,
    edges: Seq<EdgeTuple>,
    base: Map<u128, nat>,
    priors: Map<u128, (nat, nat)>,
    val: Map<u128, nat>,
    current: Map<u128, nat>,
    limit: nat,
    k: nat,
    rank: spec_fn(u128) -> nat,
    i: int,
)
    requires
        layered_by(order, edges, limit, rank),
        is_stable(order, edges, base, priors, val, k, rank),
        0 <= i <= order.len(),
        forall|x: u128| !order.contains(x) || rank(x) < k ==> val[x] == #[trigger] current[x],
        forall|j: int|
            0 <= j < i && rank(#[trigger] order[j]) == k ==> current[order[j]] == posterior_mean(
                priors[order[j]],
                edges_into(edges, base, order[j]),
                current,
            ),
    ensures
        is_stable(
            order,
            edges,
            base,
            priors,
            pass(order, edges, base, priors, current, i).0,
            k + 1,
            rank,
        ),
        forall|x: u128|
            !order.contains(x) ==> val[x] == #[trigger] pass(
                order,
                edges,
                base,
                priors,
                current,
                i,
            ).0[x],
    decreases order.len() - i,
{
    if i < order.len() {
        let v = order[i];
        let p = posterior_mean(priors[v], edges_into(edges, base, v), current);
        let next = current.insert(v, p);
        assert(order.contains(v));
        if rank(v) < k {
            assert forall|x: u128|
                !order.contains(x) || rank(x) < rank(v) implies val[x] == #[trigger] current[x] by {}
            lemma_mean_depends_below(order, edges, base, priors, val, current, limit, rank, i);
            assert(p == val[v]);
        }
        assert forall|x: u128| !order.contains(x) || rank(x) < k implies val[x]
            == #[trigger] next[x] by {
            assert(val[x] == current[x]);
        }
        assert forall|j: int| 0 <= j < i + 1 && rank(#[trigger] order[j]) == k implies next[order[j]]
            == posterior_mean(priors[order[j]], edges_into(edges, base, order[j]), next) by {
            assert forall|x: u128|
                !order.contains(x) || rank(x) < rank(order[j]) implies current[x]
                    == #[trigger] next[x] by {
                assert(val[x] == current[x]);
                assert(val[x] == next[x]);
            }
            lemma_mean_depends_below(order, edges, base, priors, current, next, limit, rank, j);
        }
        lemma_pass_settles(order, edges, base, priors, val, next, limit, k, rank, i + 1);
    } else {
        assert forall|j: int| 0 <= j < order.len() && rank(#[trigger] order[j]) < k + 1 implies current[order[j]]
            == posterior_mean(priors[order[j]], edges_into(edges, base, order[j]), current) by {
            if rank(order[j]) < k {
                assert forall|x: u128|
                    !order.contains(x) || rank(x) < rank(order[j]) implies val[x]
                        == #[trigger] current[x] by {}
                lemma_mean_depends_below(order, edges, base, priors, val, current, limit, rank, j);
                assert(val[order[j]] == current[order[j]]);
            }
        }
    }
}

/// A pass that moves nothing leaves the means as they are, and they are settled.
proof fn lemma_quiet_pass(
    order: Seq<u128>,
    edges: Seq<EdgeTuple>,
    base: Map<u128, nat>,
    priors: Map<u128, (nat, nat)>,
    val: Map<u128, nat>,
    i: int,
)
    requires
        0 <= i <= order.len(),
        pass(order, edges, base, priors, val, i).1,
        forall|j: int| 0 <= j < order.len() ==> val.contains_key(#[trigger] order[j]),
    ensures
        pass(order, edges, base, priors, val, i).0 == val,
        forall|j: int|
            i <= j < order.len() ==> val[#[trigger] order[j]] == posterior_mean(
                priors[order[j]],
                edges_into(edges, base, order[j]),
                val,
            ),
    decreases order.len() - i,
{
    if i < order.len() {
        let v = order[i];
        assert(val.contains_key(v));
        assert(val.insert(v, val[v]) =~= val);
        lemma_quiet_pass(order, edges, base, priors, val, i + 1);
    }
}

/// A pass does not lose a value.
proof fn lemma_pass_keeps_keys(
    order: Seq<u128>,
    edges: Seq<EdgeTuple>,
    base: Map<u128, nat>,
    priors: Map<u128, (nat, nat)>,
    val: Map<u128, nat>,
    i: int,
)
    requires
        0 <= i <= order.len(),
    ensures
        forall|x: u128| #[trigger]
            val.contains_key(x) ==> pass(order, edges, base, priors, val, i).0.contains_key(x),
    decreases order.len() - i,
{
    if i < order.len() {
        let v = order[i];
        let p = posterior_mean(priors[v], edges_into(edges, base, v), val);
        lemma_pass_keeps_keys(order, edges, base, priors, val.insert(v, p), i + 1);
        assert forall|x: u128| #[trigger] val.contains_key(x) implies pass(
            order,
            edges,
            base,
            priors,
            val,
            i,
        ).0.contains_key(x) by {
            assert(val.insert(v, p).contains_key(x));
        }
    }
}

/// Passes settle the means of all beliefs when there are as many as ranks.
pub proof fn lemma_settles(
    order: Seq<u128>,
    edges: Seq<EdgeTuple>,
    base: Map<u128, nat>,
    priors: Map<u128, (nat, nat)>,
    val: Map<u128, nat>,
    n: nat,
    k: nat,
    rank: spec_fn(u128) -> nat,
)
    requires
        layered_by(order, edges, n + k, rank),
        is_stable(order, edges, base, priors, val, k, rank),
        forall|j: int| 0 <= j < order.len() ==> val.contains_key(#[trigger] order[j]),
    ensures
        is_stable(
            order,
            edges,
            base,
            priors,
            settled_means(order, edges, base, priors, val, n),
            n + k,
            rank,
        ),
        forall|x: u128|
            !order.contains(x) ==> val[x] == #[trigger] settled_means(
                order,
                edges,
                base,
                priors,
                val,
                n,
            )[x],
    decreases n,
{
    if n > 0 {
        let (next, settled) = pass(order, edges, base, priors, val, 0);
        if settled {
            lemma_quiet_pass(order, edges, base, priors, val, 0);
        } else {
            lemma_pass_settles(order, edges, base, priors, val, val, n + k, k, rank, 0);
            lemma_pass_keeps_keys(order, edges, base, priors, val, 0);
            assert forall|j: int| 0 <= j < order.len() implies next.contains_key(
                #[trigger] order[j],
            ) by {
                assert(val.contains_key(order[j]));
            }
            lemma_settles(order, edges, base, priors, next, (n - 1) as nat, k + 1, rank);
            let last = settled_means(order, edges, base, priors, val, n);
            assert forall|x: u128| !order.contains(x) implies val[x] == #[trigger] last[x] by {
                assert(next[x] == last[x]);
                assert(val[x] == next[x]);
            }
        }
    }
}

/// Settled means that agree outside agree.
pub proof fn lemma_one_fixpoint(
    order: Seq<u128>,
    edges: Seq<EdgeTuple>,
    base: Map<u128, nat>,
    priors: Map<u128, (nat, nat)>,
    a: Map<u128, nat>,
    b: Map<u128, nat>,
    limit: nat,
    rank: spec_fn(u128) -> nat,
    i: int,
)
    requires
        layered_by(order, edges, limit, rank),
        is_stable(order, edges, base, priors, a, limit, rank),
        is_stable(order, edges, base, priors, b, limit, rank),
        forall|x: u128| base.contains_key(x) && !order.contains(x) ==> a[x] == #[trigger] b[x],
        0 <= i < order.len(),
    ensures
        a[order[i]] == b[order[i]],
    decreases rank(order[i]),
{
    assert forall|x: u128|
        base.contains_key(x) && (!order.contains(x) || rank(x) < rank(order[i])) implies a[x]
        == #[trigger] b[x] by {
        if order.contains(x) {
            let j = choose|j: int| 0 <= j < order.len() && order[j] == x;
            lemma_one_fixpoint(order, edges, base, priors, a, b, limit, rank, j);
        }
    }
    lemma_mean_depends_below(order, edges, base, priors, a, b, limit, rank, i);
    assert(rank(order[i]) < limit);
}

/// A report holds the counts that the means entail, of beliefs that changed.
pub proof fn lemma_reported_counts(
    order: Seq<u128>,
    edges: Seq<EdgeTuple>,
    base: Map<u128, nat>,
    priors: Map<u128, (nat, nat)>,
    val: Map<u128, nat>,
    k: int,
)
    requires
        0 <= k < revised(order, edges, base, priors, val).len(),
    ensures
        ({
            let (v, counts) = revised(order, edges, base, priors, val)[k];
            counts == posterior(priors[v], edges_into(edges, base, v), val)
        }),
    decreases order.len(),
{
    if order.len() > 0 {
        let before = revised(order.drop_last(), edges, base, priors, val);
        if k < before.len() {
            lemma_reported_counts(order.drop_last(), edges, base, priors, val, k);
        }
    }
}

/// A belief that changed is reported.
pub proof fn lemma_reports_changes(
    order: Seq<u128>,
    edges: Seq<EdgeTuple>,
    base: Map<u128, nat>,
    priors: Map<u128, (nat, nat)>,
    val: Map<u128, nat>,
    i: int,
)
    requires
        0 <= i < order.len(),
        distance(
            posterior_mean(priors[order[i]], edges_into(edges, base, order[i]), val),
            base[order[i]],
        ) > settled_units(),
    ensures
        is_reported(
            revised(order, edges, base, priors, val),
            order[i],
            posterior(priors[order[i]], edges_into(edges, base, order[i]), val),
        ),
    decreases order.len(),
{
    let v = order[i];
    let counts = posterior(priors[v], edges_into(edges, base, v), val);
    let shorter = order.drop_last();
    let before = revised(shorter, edges, base, priors, val);
    let all = revised(order, edges, base, priors, val);
    if i < shorter.len() {
        assert(shorter[i] == v);
        lemma_reports_changes(shorter, edges, base, priors, val, i);
        let k = choose|k: int| 0 <= k < before.len() && #[trigger] before[k] == (v, counts);
        assert(all[k] == (v, counts));
    } else {
        assert(all[before.len() as int] == (v, counts));
    }
}

/// Where no belief changed, nothing is reported.
proof fn lemma_none_revised(
    order: Seq<u128>,
    edges: Seq<EdgeTuple>,
    base: Map<u128, nat>,
    priors: Map<u128, (nat, nat)>,
    val: Map<u128, nat>,
)
    requires
        forall|i: int|
            0 <= i < order.len() ==> distance(
                posterior_mean(priors[#[trigger] order[i]], edges_into(edges, base, order[i]), val),
                base[order[i]],
            ) <= settled_units(),
    ensures
        revised(order, edges, base, priors, val).len() == 0,
    decreases order.len(),
{
    if order.len() > 0 {
        let shorter = order.drop_last();
        assert forall|i: int| 0 <= i < shorter.len() implies distance(
            posterior_mean(priors[#[trigger] shorter[i]], edges_into(edges, base, shorter[i]), val),
            base[shorter[i]],
        ) <= settled_units() by {
            assert(shorter[i] == order[i]);
        }
        lemma_none_revised(shorter, edges, base, priors, val);
        assert(order[order.len() - 1] == order.last());
    }
}

/// Writing a report keeps identifiers and priors.
proof fn lemma_written_alike(
    before: Seq<Belief>,
    report: Seq<(u128, (nat, nat))>,
    after: Seq<Belief>,
    seed_id: u128,
)
    requires
        is_written(before, report, after),
    ensures
        swept_ids(after, seed_id) == swept_ids(before, seed_id),
        prior_values(after) == prior_values(before),
        belief_values(after).dom() =~= belief_values(before).dom(),
    decreases before.len(),
{
    if before.len() > 0 {
        lemma_written_prefix(before, report, after);
        lemma_written_alike(before.drop_last(), report, after.drop_last(), seed_id);
        assert(after[after.len() - 1] == after.last());
    }
}

proof fn lemma_written_prefix(
    before: Seq<Belief>,
    report: Seq<(u128, (nat, nat))>,
    after: Seq<Belief>,
)
    requires
        before.len() > 0,
        is_written(before, report, after),
    ensures
        is_written(before.drop_last(), report, after.drop_last()),
{
    assert forall|i: int| 0 <= i < before.drop_last().len() implies {
        let b = before.drop_last()[i];
        &&& (#[trigger] after.drop_last()[i]).id == b.id
        &&& after.drop_last()[i].alpha0 == b.alpha0 && after.drop_last()[i].beta0 == b.beta0
        &&& forall|counts: (nat, nat)| #[trigger]
            is_reported(report, b.id, counts) ==> after.drop_last()[i].probability.units()
                == mean_of(counts.0, counts.1)
        &&& (forall|counts: (nat, nat)| !#[trigger] is_reported(report, b.id, counts))
            ==> after.drop_last()[i].probability == b.probability
    } by {
        assert(after[i].id == before[i].id);
    }
}

/// A reported belief starts from its new mean.
proof fn lemma_written_reported(
    before: Seq<Belief>,
    report: Seq<(u128, (nat, nat))>,
    after: Seq<Belief>,
    v: u128,
    counts: (nat, nat),
)
    requires
        is_written(before, report, after),
        is_reported(report, v, counts),
        belief_values(before).contains_key(v),
    ensures
        belief_values(after).contains_key(v),
        belief_values(after)[v] == mean_of(counts.0, counts.1),
    decreases before.len(),
{
    if before.len() > 0 {
        assert(after[after.len() - 1] == after.last());
        assert(before[before.len() - 1] == before.last());
        if before.last().id != v {
            lemma_written_prefix(before, report, after);
            lemma_written_reported(before.drop_last(), report, after.drop_last(), v, counts);
        }
    }
}

/// A belief that is not reported starts from its old mean.
proof fn lemma_written_unreported(
    before: Seq<Belief>,
    report: Seq<(u128, (nat, nat))>,
    after: Seq<Belief>,
    v: u128,
)
    requires
        is_written(before, report, after),
        forall|counts: (nat, nat)| !#[trigger] is_reported(report, v, counts),
    ensures
        belief_values(after).contains_key(v) == belief_values(before).contains_key(v),
        belief_values(before).contains_key(v) ==> belief_values(after)[v] == belief_values(
            before,
        )[v],
    decreases before.len(),
{
    if before.len() > 0 {
        assert(after[after.len() - 1] == after.last());
        assert(before[before.len() - 1] == before.last());
        lemma_written_prefix(before, report, after);
        lemma_written_unreported(before.drop_last(), report, after.drop_last(), v);
    }
}

/// A number is no distance from itself, and that does not count as a change.
proof fn lemma_no_gap(a: nat)
    ensures
        distance(a, a) == 0,
        settled_units() > 0,
{
    lemma_round_zero(53, 1);
    lemma_settled_pattern();
    crate::binary64::lemma_pattern_order(0, SETTLED_BITS);
}

} // verus!
