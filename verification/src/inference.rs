//! Inference over the belief graph: attenuation and support, propagation to a
//! fixpoint, interventions, contradictions, decay and expiry.
use std::collections::HashMap;
use vstd::prelude::*;

use crate::binary64::{
    complement, distance, lemma_nearest_to_fraction, lemma_one_units, lemma_pattern_order,
    lemma_pattern_representable, lemma_times_at_most, one, pattern_units, plus, times, Binary64,
    ONE_BITS,
};
use crate::graph::{attenuated, Belief, EdgeType, GraphError, MemoryType, Probability};
use crate::rounding::{lemma_round_at_least, lemma_round_exact, round_to_precision};
use crate::sorting::{ascending, sort_ids};
use crate::time::{elapsed_nanos, toward_zero, Timestamp};

verus! {

broadcast use vstd::std_specs::hash::group_hash_axioms;

/// Most sweeps of one propagation.
pub const MAX_SWEEPS: u32 = 50;

/// Bit pattern of the number nearest to `10^-9`.
pub const SETTLED_BITS: u64 = 0x3E11_2E0B_E826_D695;

/// Bit pattern of `2^-52`.
pub const CHANGED_BITS: u64 = 0x3CB0_0000_0000_0000;

/// A bit pattern that is no number.
pub const NOT_A_NUMBER_BITS: u64 = 0x7FF8_0000_0000_0000;

/// Changes below this do not count: the number nearest to `10^-9`, in units.
pub open spec fn settled_units() -> nat {
    round_to_precision(53, 1 * one(), 1_000_000_000)
}

/// An edge: source, target, type and weight.
pub type EdgeTuple = (u128, u128, EdgeType, Probability);

/// Draws conclusions from beliefs and edges. It holds no state.
#[derive(Clone, Copy, Debug)]
pub struct InferenceEngine;

/// What a defeat leaves of a probability: `p * (1 - weight * defeater)`.
pub open spec fn defeated(p: nat, defeater: nat, weight: nat) -> nat {
    times(p, complement(times(weight, defeater)))
}

/// What support makes of a probability: `p + (1 - p) * weight * supporter`, at
/// most one.
pub open spec fn supported(p: nat, supporter: nat, weight: nat) -> nat {
    let sum = plus(p, times(times(complement(p), weight), supporter));
    if sum <= one() {
        sum
    } else {
        one()
    }
}

/// The product of a probability and a retained part is a number.
pub open spec fn has_decayed(p: nat, retention: Binary64) -> bool {
    !retention.is_nan() && (p > 0 || retention.is_finite())
}

/// The probabilities of the beliefs, by identifier; a later belief replaces an
/// earlier one of the same identifier.
pub open spec fn belief_values(beliefs: Seq<Belief>) -> Map<u128, nat>
    decreases beliefs.len(),
{
    if beliefs.len() == 0 {
        Map::empty()
    } else {
        belief_values(beliefs.drop_last()).insert(
            beliefs.last().id,
            beliefs.last().probability.units(),
        )
    }
}

/// The values at the start of a propagation: those of the beliefs, and the
/// seed's own.
pub open spec fn snapshot(downstream: Seq<Belief>, seed_id: u128, seed: nat) -> Map<u128, nat> {
    belief_values(downstream).insert(seed_id, seed)
}

/// The identifiers of the beliefs other than the seed.
pub open spec fn swept_ids(downstream: Seq<Belief>, seed_id: u128) -> Seq<u128>
    decreases downstream.len(),
{
    if downstream.len() == 0 {
        Seq::empty()
    } else {
        let before = swept_ids(downstream.drop_last(), seed_id);
        if downstream.last().id != seed_id {
            before.push(downstream.last().id)
        } else {
            before
        }
    }
}

/// The edges into `v` whose source has a value, in their given order.
pub open spec fn edges_into(edges: Seq<EdgeTuple>, base: Map<u128, nat>, v: u128) -> Seq<EdgeTuple>
    decreases edges.len(),
{
    if edges.len() == 0 {
        Seq::empty()
    } else {
        let before = edges_into(edges.drop_last(), base, v);
        if edges.last().1 == v && base.contains_key(edges.last().0) {
            before.push(edges.last())
        } else {
            before
        }
    }
}

/// Supporting and causing edges raise their target.
pub open spec fn raises(t: EdgeType) -> bool {
    t == EdgeType::Supports || t == EdgeType::Causes
}

/// The product of `1 - weight * source` over the raising edges.
pub open spec fn support_complement(incoming: Seq<EdgeTuple>, val: Map<u128, nat>) -> nat
    decreases incoming.len(),
{
    if incoming.len() == 0 {
        one()
    } else {
        let before = support_complement(incoming.drop_last(), val);
        let e = incoming.last();
        if raises(e.2) {
            times(before, complement(times(e.3.units(), val[e.0])))
        } else {
            before
        }
    }
}

/// The product of `1 - weight * source` over the defeating edges.
pub open spec fn defeat_factor(incoming: Seq<EdgeTuple>, val: Map<u128, nat>) -> nat
    decreases incoming.len(),
{
    if incoming.len() == 0 {
        one()
    } else {
        let before = defeat_factor(incoming.drop_last(), val);
        let e = incoming.last();
        if e.2 == EdgeType::Defeats {
            times(before, complement(times(e.3.units(), val[e.0])))
        } else {
            before
        }
    }
}

/// The value of a node from its own base value and its incoming edges: each
/// supporting edge leaves less of what is missing to one, each defeating edge
/// less of the rest.
pub open spec fn combined(base: nat, incoming: Seq<EdgeTuple>, val: Map<u128, nat>) -> nat {
    if incoming.len() == 0 {
        base
    } else {
        times(
            complement(times(complement(base), support_complement(incoming, val))),
            defeat_factor(incoming, val),
        )
    }
}

/// One sweep over the nodes from position `i` on, each reading the values as
/// they stand. Also whether no value moved by `settled_units` or more.
pub open spec fn sweep(
    order: Seq<u128>,
    edges: Seq<EdgeTuple>,
    base: Map<u128, nat>,
    val: Map<u128, nat>,
    i: int,
) -> (Map<u128, nat>, bool)
    decreases order.len() - i,
{
    if i < 0 || i >= order.len() {
        (val, true)
    } else {
        let v = order[i];
        let p = combined(base[v], edges_into(edges, base, v), val);
        let rest = sweep(order, edges, base, val.insert(v, p), i + 1);
        (rest.0, distance(p, val[v]) < settled_units() && rest.1)
    }
}

/// Sweeps until nothing moves any more, at most `n` times.
pub open spec fn swept(
    order: Seq<u128>,
    edges: Seq<EdgeTuple>,
    base: Map<u128, nat>,
    val: Map<u128, nat>,
    n: nat,
) -> Map<u128, nat>
    decreases n,
{
    if n == 0 {
        val
    } else {
        let (next, settled) = sweep(order, edges, base, val, 0);
        if settled {
            next
        } else {
            swept(order, edges, base, next, (n - 1) as nat)
        }
    }
}

/// The nodes whose value moved by more than `settled_units`, with the new value.
pub open spec fn moved(
    order: Seq<u128>,
    base: Map<u128, nat>,
    val: Map<u128, nat>,
) -> Seq<(u128, nat)>
    decreases order.len(),
{
    if order.len() == 0 {
        Seq::empty()
    } else {
        let before = moved(order.drop_last(), base, val);
        let v = order.last();
        if distance(val[v], base[v]) > settled_units() {
            before.push((v, val[v]))
        } else {
            before
        }
    }
}

/// What a propagation reports: the beliefs whose probability changes, in the
/// order of their identifiers, with their new probability.
pub open spec fn propagated(
    seed_id: u128,
    seed: nat,
    downstream: Seq<Belief>,
    edges: Seq<EdgeTuple>,
) -> Seq<(u128, nat)> {
    let base = snapshot(downstream, seed_id, seed);
    let order = ascending(swept_ids(downstream, seed_id));
    moved(order, base, swept(order, edges, base, base, MAX_SWEEPS as nat))
}

/// The edges that an intervention on `target` follows: those that cause, and do
/// not lead into the target.
pub open spec fn surgical(edges: Seq<EdgeTuple>, target: u128) -> Seq<EdgeTuple>
    decreases edges.len(),
{
    if edges.len() == 0 {
        Seq::empty()
    } else {
        let before = surgical(edges.drop_last(), target);
        if edges.last().1 != target && edges.last().2 == EdgeType::Causes {
            before.push(edges.last())
        } else {
            before
        }
    }
}

/// Identifiers with their probability in units.
pub open spec fn updates_view(updates: Seq<(u128, Probability)>) -> Seq<(u128, nat)> {
    Seq::new(updates.len(), |i: int| (updates[i].0, updates[i].1.units()))
}

/// Values held as probabilities stand for the given values in units.
pub open spec fn holds(val: Map<u128, Probability>, model: Map<u128, nat>) -> bool {
    &&& val.dom() =~= model.dom()
    &&& forall|k: u128| #[trigger] val.contains_key(k) ==> val[k].units() == model[k]
}

pub proof fn lemma_settled_pattern()
    ensures
        pattern_units(SETTLED_BITS) == settled_units(),
{
    vstd::arithmetic::power2::lemma2_to64();
    vstd::arithmetic::power2::lemma_pow2_adds(64, 18);
    assert(vstd::arithmetic::power2::pow2(82) == 4835703278458516698824704);
    assert(0x3E11_2E0B_E826_D695nat / 0x0010_0000_0000_0000 == 993);
    let m: nat = 0x0010_0000_0000_0000 + 0x3E11_2E0B_E826_D695nat % 0x0010_0000_0000_0000;
    assert(m == 4835703278458517);
    lemma_nearest_to_fraction(1, 1_000_000_000, 82, m);
}

pub proof fn lemma_units_order(a: Binary64, b: Binary64)
    ensures
        a.bits < b.bits <==> a.units() < b.units(),
        a.bits == b.bits <==> a.units() == b.units(),
{
    if a.bits < b.bits {
        lemma_pattern_order(a.bits, b.bits);
    }
    if b.bits < a.bits {
        lemma_pattern_order(b.bits, a.bits);
    }
}

impl Default for InferenceEngine {
    fn default() -> (r: InferenceEngine)
        ensures
            r == InferenceEngine,
    {
        InferenceEngine::new()
    }
}

impl InferenceEngine {
    pub fn new() -> (r: InferenceEngine)
        ensures
            r == InferenceEngine,
    {
        InferenceEngine
    }

    /// What a defeat leaves of a probability.
    pub fn attenuate_by_defeat(
        &self,
        target_prob: Probability,
        defeater_prob: Probability,
        weight: Probability,
    ) -> (r: Result<Probability, GraphError>)
        ensures
            r is Ok,
            r->Ok_0.units() == defeated(
                target_prob.units(),
                defeater_prob.units(),
                weight.units(),
            ),
            r->Ok_0.units() <= target_prob.units(),
            weight.units() == 0 || defeater_prob.units() == 0 ==> r->Ok_0.units()
                == target_prob.units(),
            weight.units() == one() && defeater_prob.units() == one() ==> r->Ok_0.units() == 0,
    {
        let t = target_prob.value();
        let d = defeater_prob.value();
        let w = weight.value();
        let pull = w.product(d);
        proof {
            lemma_one_units();
        }
        let factor = Binary64 { bits: ONE_BITS }.distance_to(pull);
        let result = t.product(factor);
        proof {
            lemma_times_at_most(factor.units(), t.units(), factor.bits, t.bits);
            vstd::arithmetic::mul::lemma_mul_is_commutative(
                factor.units() as int,
                t.units() as int,
            );
            if w.units() == 0 || d.units() == 0 {
                lemma_times_zero(w.units(), d.units());
                lemma_complement_ends();
                lemma_times_one(t.bits);
            }
            if w.units() == one() && d.units() == one() {
                lemma_times_one(ONE_BITS);
                lemma_complement_ends();
                lemma_times_zero(t.units(), 0);
            }
        }
        Ok(Probability::from_unit_range(result))
    }

    /// What support makes of a probability.
    pub fn boost_by_support(
        &self,
        target_prob: Probability,
        supporter_prob: Probability,
        weight: Probability,
    ) -> (r: Result<Probability, GraphError>)
        ensures
            r is Ok,
            r->Ok_0.units() == supported(
                target_prob.units(),
                supporter_prob.units(),
                weight.units(),
            ),
            r->Ok_0.units() >= target_prob.units(),
            weight.units() == 0 || supporter_prob.units() == 0 ==> r->Ok_0.units()
                == target_prob.units(),
    {
        let p = target_prob.value();
        let s = supporter_prob.value();
        let w = weight.value();
        proof {
            lemma_one_units();
        }
        let missing = Binary64 { bits: ONE_BITS }.distance_to(p);
        let share = missing.product(w);
        let gain = share.product(s);
        let sum = p.sum(gain);
        proof {
            lemma_units_order(Binary64 { bits: ONE_BITS }, sum);
            lemma_pattern_representable(p.bits);
            lemma_round_at_least(53, p.units() + gain.units(), 1, p.units());
            if w.units() == 0 || s.units() == 0 {
                if w.units() == 0 {
                    lemma_times_zero(missing.units(), w.units());
                }
                lemma_times_zero(share.units(), s.units());
                lemma_round_exact(53, p.units(), 1);
            }
        }
        if sum.bits > ONE_BITS {
            Ok(Probability::from_unit_range(Binary64 { bits: ONE_BITS }))
        } else {
            Ok(Probability::from_unit_range(sum))
        }
    }

    /// What time leaves of a probability. `retention` is the part that remains
    /// after the elapsed days, the decay factor to their power.
    pub fn apply_decay(&self, prob: Probability, retention: Binary64) -> (r: Result<
        Probability,
        GraphError,
    >)
        ensures
            match r {
                Ok(p) => {
                    &&& has_decayed(prob.units(), retention)
                    &&& p.units() == attenuated(prob.units(), retention)
                    &&& 0 <= retention.value() <= one() ==> p.units() <= prob.units()
                },
                Err(e) => !has_decayed(prob.units(), retention) && e is ProbabilityOutOfRange
                    && e->ProbabilityOutOfRange_0.is_nan(),
            },
    {
        let p = prob.value();
        proof {
            lemma_units_order(p, Binary64 { bits: 0 });
        }
        if retention.not_a_number() || (p.bits == 0 && !retention.finite()) {
            Err(GraphError::ProbabilityOutOfRange(Binary64 { bits: NOT_A_NUMBER_BITS }))
        } else {
            Ok(prob.attenuate(retention))
        }
    }

    /// Whether two beliefs contradict each other: their probabilities sum to
    /// more than one.
    pub fn is_contradicting(&self, belief_a: &Belief, belief_b: &Belief) -> (r: bool)
        ensures
            r == (plus(belief_a.probability.units(), belief_b.probability.units()) > one()),
    {
        let sum = belief_a.probability.value().sum(belief_b.probability.value());
        proof {
            lemma_one_units();
            lemma_units_order(Binary64 { bits: ONE_BITS }, sum);
        }
        sum.bits > ONE_BITS
    }
}

/// The values of the beliefs and of the seed.
fn take_snapshot(seed_id: u128, seed: Probability, downstream: &[Belief]) -> (r: HashMap<
    u128,
    Probability,
>)
    ensures
        holds(r@, snapshot(downstream@, seed_id, seed.units())),
{
    let mut base: HashMap<u128, Probability> = HashMap::new();
    let n: usize = downstream.len();
    let mut i: usize = 0;
    assert(downstream@.take(0) =~= Seq::empty());
    while i < n
        invariant
            i <= n,
            n == downstream@.len(),
            holds(base@, belief_values(downstream@.take(i as int))),
        decreases n - i,
    {
        base.insert(downstream[i].id, downstream[i].probability);
        assert(downstream@.take(i + 1).drop_last() =~= downstream@.take(i as int));
        i = i + 1;
    }
    assert(downstream@.take(n as int) =~= downstream@);
    base.insert(seed_id, seed);
    base
}

/// The identifiers to sweep, in ascending order.
pub(crate) fn sweep_order(seed_id: u128, downstream: &[Belief]) -> (r: Vec<u128>)
    ensures
        r@ == ascending(swept_ids(downstream@, seed_id)),
        r@.to_multiset() == swept_ids(downstream@, seed_id).to_multiset(),
{
    let mut ids: Vec<u128> = Vec::new();
    let n: usize = downstream.len();
    let mut i: usize = 0;
    assert(downstream@.take(0) =~= Seq::empty());
    while i < n
        invariant
            i <= n,
            n == downstream@.len(),
            ids@ == swept_ids(downstream@.take(i as int), seed_id),
        decreases n - i,
    {
        assert(downstream@.take(i + 1).drop_last() =~= downstream@.take(i as int));
        if downstream[i].id != seed_id {
            ids.push(downstream[i].id);
        }
        i = i + 1;
    }
    assert(downstream@.take(n as int) =~= downstream@);
    sort_ids(&ids)
}

/// The edges into `v` whose source has a value.
pub(crate) fn gather_incoming(
    edges: &[EdgeTuple],
    base: &HashMap<u128, Probability>,
    v: u128,
    model: Ghost<Map<u128, nat>>,
) -> (r: Vec<EdgeTuple>)
    requires
        holds(base@, model@),
    ensures
        r@ == edges_into(edges@, model@, v),
        forall|i: int| 0 <= i < r@.len() ==> model@.contains_key((#[trigger] r@[i]).0),
{
    let mut r: Vec<EdgeTuple> = Vec::new();
    let n: usize = edges.len();
    let mut i: usize = 0;
    assert(edges@.take(0) =~= Seq::empty());
    while i < n
        invariant
            i <= n,
            n == edges@.len(),
            holds(base@, model@),
            r@ == edges_into(edges@.take(i as int), model@, v),
            forall|k: int| 0 <= k < r@.len() ==> model@.contains_key((#[trigger] r@[k]).0),
        decreases n - i,
    {
        assert(edges@.take(i + 1).drop_last() =~= edges@.take(i as int));
        let e = edges[i];
        if e.1 == v && base.contains_key(&e.0) {
            r.push(e);
        }
        i = i + 1;
    }
    assert(edges@.take(n as int) =~= edges@);
    r
}

/// The new value of a node.
fn combine(
    base: Probability,
    incoming: &Vec<EdgeTuple>,
    val: &HashMap<u128, Probability>,
    model: Ghost<Map<u128, nat>>,
) -> (r: Probability)
    requires
        holds(val@, model@),
        forall|i: int| 0 <= i < incoming@.len() ==> model@.contains_key((#[trigger] incoming@[i]).0),
    ensures
        r.units() == combined(base.units(), incoming@, model@),
{
    let n: usize = incoming.len();
    if n == 0 {
        return base;
    }
    let mut complement_product: Binary64 = Binary64 { bits: ONE_BITS };
    let mut factor_product: Binary64 = Binary64 { bits: ONE_BITS };
    let mut i: usize = 0;
    proof {
        lemma_one_units();
        assert(incoming@.take(0) =~= Seq::empty());
    }
    while i < n
        invariant
            i <= n,
            n == incoming@.len(),
            holds(val@, model@),
            forall|k: int| 0 <= k < n ==> model@.contains_key((#[trigger] incoming@[k]).0),
            complement_product.in_unit_range(),
            factor_product.in_unit_range(),
            complement_product.units() == support_complement(incoming@.take(i as int), model@),
            factor_product.units() == defeat_factor(incoming@.take(i as int), model@),
        decreases n - i,
    {
        assert(incoming@.take(i + 1).drop_last() =~= incoming@.take(i as int));
        let e = incoming[i];
        assert(val@.contains_key(e.0));
        match val.get(&e.0) {
            Some(source) => {
                let pull = e.3.value().product(source.value());
                proof {
                    lemma_one_units();
                }
                let left = Binary64 { bits: ONE_BITS }.distance_to(pull);
                match e.2 {
                    EdgeType::Supports | EdgeType::Causes => {
                        complement_product = complement_product.product(left);
                    },
                    EdgeType::Defeats => {
                        factor_product = factor_product.product(left);
                    },
                    EdgeType::Contradicts => {},
                }
            },
            None => {},
        }
        i = i + 1;
    }
    assert(incoming@.take(n as int) =~= incoming@);
    let missing = Binary64 { bits: ONE_BITS }.distance_to(base.value());
    let rest = missing.product(complement_product);
    let raised = Binary64 { bits: ONE_BITS }.distance_to(rest);
    Probability::from_unit_range(raised.product(factor_product))
}

/// One sweep over all nodes; whether it moved no value noticeably.
fn sweep_once(
    order: &Vec<u128>,
    incoming: &Vec<Vec<EdgeTuple>>,
    base: &HashMap<u128, Probability>,
    val: &mut HashMap<u128, Probability>,
    edges: Ghost<Seq<EdgeTuple>>,
    base_model: Ghost<Map<u128, nat>>,
    model: Ghost<Map<u128, nat>>,
) -> (settled: bool)
    requires
        holds(base@, base_model@),
        holds(old(val)@, model@),
        model@.dom() =~= base_model@.dom(),
        incoming@.len() == order@.len(),
        forall|i: int|
            0 <= i < order@.len() ==> base_model@.contains_key(#[trigger] order@[i]),
        forall|i: int|
            0 <= i < order@.len() ==> (#[trigger] incoming@[i])@ == edges_into(
                edges@,
                base_model@,
                order@[i],
            ) && forall|k: int|
                0 <= k < incoming@[i]@.len() ==> base_model@.contains_key(
                    (#[trigger] incoming@[i]@[k]).0,
                ),
    ensures
        holds(final(val)@, sweep(order@, edges@, base_model@, model@, 0).0),
        settled == sweep(order@, edges@, base_model@, model@, 0).1,
        sweep(order@, edges@, base_model@, model@, 0).0.dom() =~= base_model@.dom(),
{
    let n: usize = order.len();
    let mut i: usize = 0;
    let mut settled: bool = true;
    let ghost mut current: Map<u128, nat> = model@;
    while i < n
        invariant
            i <= n,
            n == order@.len(),
            n == incoming@.len(),
            holds(base@, base_model@),
            holds(val@, current),
            current.dom() =~= base_model@.dom(),
            forall|k: int|
                0 <= k < order@.len() ==> base_model@.contains_key(#[trigger] order@[k]),
            forall|k: int|
                0 <= k < order@.len() ==> (#[trigger] incoming@[k])@ == edges_into(
                    edges@,
                    base_model@,
                    order@[k],
                ) && forall|m: int|
                    0 <= m < incoming@[k]@.len() ==> base_model@.contains_key(
                        (#[trigger] incoming@[k]@[m]).0,
                    ),
            sweep(order@, edges@, base_model@, model@, 0).0 == sweep(
                order@,
                edges@,
                base_model@,
                current,
                i as int,
            ).0,
            sweep(order@, edges@, base_model@, model@, 0).1 == (settled && sweep(
                order@,
                edges@,
                base_model@,
                current,
                i as int,
            ).1),
        decreases n - i,
    {
        let v: u128 = order[i];
        assert(base_model@.contains_key(v));
        assert(base@.contains_key(v));
        assert(current.contains_key(v));
        assert(val@.contains_key(v));
        let own = match base.get(&v) {
            Some(b) => *b,
            None => Probability::from_unit_range(Binary64 { bits: 0 }),
        };
        let old_value = match val.get(&v) {
            Some(b) => *b,
            None => Probability::from_unit_range(Binary64 { bits: 0 }),
        };
        let p = combine(own, &incoming[i], val, Ghost(current));
        let delta = p.value().distance_to(old_value.value());
        proof {
            lemma_settled_pattern();
            lemma_units_order(delta, Binary64 { bits: SETTLED_BITS });
        }
        if delta.bits >= SETTLED_BITS {
            settled = false;
        }
        val.insert(v, p);
        proof {
            current = current.insert(v, p.units());
        }
        i = i + 1;
    }
    settled
}

/// The edges that an intervention follows.
pub(crate) fn cut_edges(edges: &[EdgeTuple], target_id: u128) -> (r: Vec<EdgeTuple>)
    ensures
        r@ == surgical(edges@, target_id),
{
    let mut kept: Vec<EdgeTuple> = Vec::new();
    let n: usize = edges.len();
    let mut i: usize = 0;
    assert(edges@.take(0) =~= Seq::empty());
    while i < n
        invariant
            i <= n,
            n == edges@.len(),
            kept@ == surgical(edges@.take(i as int), target_id),
        decreases n - i,
    {
        assert(edges@.take(i + 1).drop_last() =~= edges@.take(i as int));
        let e = edges[i];
        if e.1 != target_id && e.2 == EdgeType::Causes {
            kept.push(e);
        }
        i = i + 1;
    }
    assert(edges@.take(n as int) =~= edges@);
    kept
}

impl InferenceEngine {
    /// The new probabilities of the beliefs downstream of a seed belief whose
    /// probability changed. Nothing is written.
    pub fn propagate_defeat(
        &self,
        seed: &Belief,
        downstream: &[Belief],
        edges: &[EdgeTuple],
    ) -> (r: Result<Vec<(u128, Probability)>, GraphError>)
        ensures
            r is Ok,
            updates_view(r->Ok_0@) == propagated(
                seed.id,
                seed.probability.units(),
                downstream@,
                edges@,
            ),
            forall|i: int|
                0 <= i < r->Ok_0@.len() ==> (#[trigger] r->Ok_0@[i]).1.units() <= one(),
    {
        self.propagate_core(seed.id, seed.probability, downstream, edges)
    }

    /// The probabilities that follow from setting `target_id` to `value`, its
    /// own causes cut off, along causing edges only. Nothing is written.
    pub fn intervene(
        &self,
        target_id: u128,
        value: Probability,
        downstream: &[Belief],
        edges: &[EdgeTuple],
    ) -> (r: Result<Vec<(u128, Probability)>, GraphError>)
        ensures
            r is Ok,
            updates_view(r->Ok_0@) == propagated(
                target_id,
                value.units(),
                downstream@,
                surgical(edges@, target_id),
            ),
            forall|i: int|
                0 <= i < r->Ok_0@.len() ==> (#[trigger] r->Ok_0@[i]).1.units() <= one(),
    {
        let kept = cut_edges(edges, target_id);
        self.propagate_core(target_id, value, downstream, kept.as_slice())
    }

    /// Sweeps the beliefs until their values settle, the seed held fixed, and
    /// reports those that moved.
    fn propagate_core(
        &self,
        seed_id: u128,
        seed_prob: Probability,
        downstream: &[Belief],
        edges: &[EdgeTuple],
    ) -> (r: Result<Vec<(u128, Probability)>, GraphError>)
        ensures
            r is Ok,
            updates_view(r->Ok_0@) == propagated(
                seed_id,
                seed_prob.units(),
                downstream@,
                edges@,
            ),
            forall|i: int|
                0 <= i < r->Ok_0@.len() ==> (#[trigger] r->Ok_0@[i]).1.units() <= one(),
    {
        let base = take_snapshot(seed_id, seed_prob, downstream);
        let order = sweep_order(seed_id, downstream);
        let ghost model = snapshot(downstream@, seed_id, seed_prob.units());
        proof {
            lemma_order_in_snapshot(downstream@, seed_id, seed_prob.units(), order@);
        }
        let n: usize = order.len();
        let mut incoming: Vec<Vec<EdgeTuple>> = Vec::new();
        let mut i: usize = 0;
        while i < n
            invariant
                i <= n,
                n == order@.len(),
                incoming@.len() == i,
                holds(base@, model),
                forall|k: int|
                    0 <= k < i ==> (#[trigger] incoming@[k])@ == edges_into(
                        edges@,
                        model,
                        order@[k],
                    ) && forall|m: int|
                        0 <= m < incoming@[k]@.len() ==> model.contains_key(
                            (#[trigger] incoming@[k]@[m]).0,
                        ),
            decreases n - i,
        {
            incoming.push(gather_incoming(edges, &base, order[i], Ghost(model)));
            i = i + 1;
        }
        let mut val = base.clone();
        let ghost mut current = model;
        let ghost finished = swept(order@, edges@, model, model, MAX_SWEEPS as nat);
        let mut left: u32 = MAX_SWEEPS;
        let mut settled: bool = false;
        while left > 0 && !settled
            invariant
                left <= MAX_SWEEPS,
                holds(base@, model),
                holds(val@, current),
                current.dom() =~= model.dom(),
                incoming@.len() == order@.len(),
                forall|k: int| 0 <= k < order@.len() ==> model.contains_key(#[trigger] order@[k]),
                forall|k: int|
                    0 <= k < order@.len() ==> (#[trigger] incoming@[k])@ == edges_into(
                        edges@,
                        model,
                        order@[k],
                    ) && forall|m: int|
                        0 <= m < incoming@[k]@.len() ==> model.contains_key(
                            (#[trigger] incoming@[k]@[m]).0,
                        ),
                finished == if settled {
                    current
                } else {
                    swept(order@, edges@, model, current, left as nat)
                },
            decreases left,
        {
            settled =
            sweep_once(
                &order,
                &incoming,
                &base,
                &mut val,
                Ghost(edges@),
                Ghost(model),
                Ghost(current),
            );
            proof {
                current = sweep(order@, edges@, model, current, 0).0;
            }
            left = left - 1;
        }
        let mut updated: Vec<(u128, Probability)> = Vec::new();
        let mut j: usize = 0;
        proof {
            assert(order@.take(0) =~= Seq::empty());
            assert(updates_view(updated@) =~= Seq::empty());
            lemma_settled_pattern();
        }
        while j < n
            invariant
                j <= n,
                n == order@.len(),
                holds(base@, model),
                holds(val@, current),
                current.dom() =~= model.dom(),
                pattern_units(SETTLED_BITS) == settled_units(),
                forall|k: int| 0 <= k < order@.len() ==> model.contains_key(#[trigger] order@[k]),
                updates_view(updated@) == moved(order@.take(j as int), model, current),
                forall|k: int|
                    0 <= k < updated@.len() ==> (#[trigger] updated@[k]).1.units() <= one(),
            decreases n - j,
        {
            let v: u128 = order[j];
            assert(order@.take(j + 1).drop_last() =~= order@.take(j as int));
            assert(model.contains_key(v) && current.contains_key(v));
            assert(base@.contains_key(v) && val@.contains_key(v));
            let ghost before = updates_view(updated@);
            match (val.get(&v), base.get(&v)) {
                (Some(p), Some(b)) => {
                    let delta = p.value().distance_to(b.value());
                    proof {
                        lemma_units_order(Binary64 { bits: SETTLED_BITS }, delta);
                    }
                    if delta.bits > SETTLED_BITS {
                        updated.push((v, *p));
                        assert(updates_view(updated@) =~= before.push((v, current[v])));
                    }
                },
                _ => {},
            }
            j = j + 1;
        }
        assert(order@.take(n as int) =~= order@);
        Ok(updated)
    }
}

/// Every identifier that is swept has a value in the snapshot.
pub proof fn lemma_order_in_snapshot(
    downstream: Seq<Belief>,
    seed_id: u128,
    seed: nat,
    order: Seq<u128>,
)
    requires
        order.to_multiset() == swept_ids(downstream, seed_id).to_multiset(),
    ensures
        forall|i: int|
            0 <= i < order.len() ==> snapshot(downstream, seed_id, seed).contains_key(
                #[trigger] order[i],
            ) && order[i] != seed_id,
{
    broadcast use vstd::seq_lib::group_to_multiset_ensures;

    let ids = swept_ids(downstream, seed_id);
    assert forall|i: int| 0 <= i < order.len() implies snapshot(
        downstream,
        seed_id,
        seed,
    ).contains_key(#[trigger] order[i]) && order[i] != seed_id by {
        assert(order.contains(order[i]));
        assert(order.to_multiset().count(order[i]) > 0);
        assert(ids.contains(order[i]));
        lemma_swept_id(downstream, seed_id, order[i]);
    }
}

proof fn lemma_swept_id(downstream: Seq<Belief>, seed_id: u128, v: u128)
    requires
        swept_ids(downstream, seed_id).contains(v),
    ensures
        belief_values(downstream).contains_key(v),
        v != seed_id,
    decreases downstream.len(),
{
    if downstream.len() > 0 {
        let before = swept_ids(downstream.drop_last(), seed_id);
        if before.contains(v) {
            lemma_swept_id(downstream.drop_last(), seed_id, v);
        }
    }
}

/// Nothing comes of multiplying by zero.
proof fn lemma_times_zero(a: nat, b: nat)
    requires
        a == 0 || b == 0,
    ensures
        times(a, b) == 0,
{
    lemma_one_units();
    assert(a * b == 0) by (nonlinear_arith)
        requires
            a == 0 || b == 0,
    ;
    crate::rounding::lemma_round_zero(53, one());
}

/// Multiplying by one changes nothing.
proof fn lemma_times_one(bits: u64)
    ensures
        times(pattern_units(bits), one()) == pattern_units(bits),
{
    lemma_one_units();
    lemma_pattern_representable(bits);
    lemma_round_exact(53, pattern_units(bits), one());
}

proof fn lemma_complement_ends()
    ensures
        complement(0) == one(),
        complement(one()) == 0,
{
    lemma_one_units();
    lemma_pattern_representable(ONE_BITS);
    lemma_round_exact(53, one(), 1);
    crate::rounding::lemma_round_zero(53, 1);
}

/// The pairs of which both beliefs are known and contradict each other, in
/// their given order.
pub open spec fn active_pairs(
    beliefs: Map<u128, &Belief>,
    pairs: Seq<(u128, u128)>,
) -> Seq<(u128, u128)>
    decreases pairs.len(),
{
    if pairs.len() == 0 {
        Seq::empty()
    } else {
        let before = active_pairs(beliefs, pairs.drop_last());
        let (a, b) = pairs.last();
        if beliefs.contains_key(a) && beliefs.contains_key(b) && plus(
            beliefs[a].probability.units(),
            beliefs[b].probability.units(),
        ) > one() {
            before.push((a, b))
        } else {
            before
        }
    }
}

/// The whole seconds since the belief was last activated; none where that lies
/// ahead.
pub open spec fn idle(belief: Belief, now: Timestamp) -> int {
    let seconds = toward_zero(elapsed_nanos(now, belief.last_activated_at));
    if seconds > 0 {
        seconds
    } else {
        0
    }
}

/// The confidences that time changes: those of the beliefs other than
/// experiential ones that move by more than `2^-52`.
pub open spec fn decayed_confidences(
    beliefs: Seq<Belief>,
    retained: Seq<Binary64>,
) -> Seq<(u128, nat)>
    decreases beliefs.len(),
{
    if beliefs.len() == 0 {
        Seq::empty()
    } else {
        let b = beliefs.last();
        let before = decayed_confidences(beliefs.drop_last(), retained.drop_last());
        let left = attenuated(b.confidence.units(), retained.last());
        if b.memory_type != MemoryType::Experiential && distance(left, b.confidence.units())
            > pattern_units(CHANGED_BITS) {
            before.push((b.id, left))
        } else {
            before
        }
    }
}

/// A belief that time can be applied to, or need not be.
pub open spec fn can_decay(belief: Belief, retained: Binary64) -> bool {
    belief.memory_type == MemoryType::Experiential || has_decayed(
        belief.confidence.units(),
        retained,
    )
}

/// A belief is expired when it is known, its probability lies below the
/// threshold, and every defeat of it is at least as old as the grace period.
pub open spec fn expired(
    edges: Seq<(u128, u128, Timestamp)>,
    beliefs: Map<u128, &Belief>,
    now: Timestamp,
    threshold: Binary64,
    grace_minutes: int,
    id: u128,
) -> bool {
    &&& beliefs.contains_key(id)
    &&& !threshold.is_nan()
    &&& beliefs[id].probability.units() < threshold.value()
    &&& forall|i: int|
        0 <= i < edges.len() && (#[trigger] edges[i]).1 == id ==> elapsed_nanos(now, edges[i].2)
            >= grace_minutes * 60_000_000_000
}

/// The expired beliefs among the targets of the first `n` defeats, each once, in
/// the order of their first defeat.
pub open spec fn expired_targets(
    edges: Seq<(u128, u128, Timestamp)>,
    beliefs: Map<u128, &Belief>,
    now: Timestamp,
    threshold: Binary64,
    grace_minutes: int,
    n: int,
) -> Seq<u128>
    decreases n,
{
    if n <= 0 {
        Seq::empty()
    } else {
        let before = expired_targets(edges, beliefs, now, threshold, grace_minutes, n - 1);
        let id = edges[n - 1].1;
        if expired(edges, beliefs, now, threshold, grace_minutes, id) && !before.contains(id) {
            before.push(id)
        } else {
            before
        }
    }
}

impl InferenceEngine {
    /// The pairs that contradict each other as their probabilities stand.
    pub fn detect_active_contradictions(
        &self,
        beliefs: &HashMap<u128, &Belief>,
        contradiction_pairs: &[(u128, u128)],
    ) -> (r: Vec<(u128, u128)>)
        ensures
            r@ == active_pairs(beliefs@, contradiction_pairs@),
    {
        let mut r: Vec<(u128, u128)> = Vec::new();
        let n: usize = contradiction_pairs.len();
        let mut i: usize = 0;
        assert(contradiction_pairs@.take(0) =~= Seq::empty());
        while i < n
            invariant
                i <= n,
                n == contradiction_pairs@.len(),
                r@ == active_pairs(beliefs@, contradiction_pairs@.take(i as int)),
            decreases n - i,
        {
            assert(contradiction_pairs@.take(i + 1).drop_last() =~= contradiction_pairs@.take(
                i as int,
            ));
            let (a, b) = contradiction_pairs[i];
            match (beliefs.get(&a), beliefs.get(&b)) {
                (Some(x), Some(y)) => {
                    if self.is_contradicting(x, y) {
                        r.push((a, b));
                    }
                },
                _ => {},
            }
            i = i + 1;
        }
        assert(contradiction_pairs@.take(n as int) =~= contradiction_pairs@);
        r
    }

    /// For each belief the whole seconds since it was last activated.
    pub fn idle_seconds(&self, beliefs: &[Belief], now: Timestamp) -> (r: Vec<i64>)
        ensures
            r@.len() == beliefs@.len(),
            forall|i: int| 0 <= i < r@.len() ==> #[trigger] r@[i] == idle(beliefs@[i], now),
    {
        let mut r: Vec<i64> = Vec::new();
        let n: usize = beliefs.len();
        let mut i: usize = 0;
        while i < n
            invariant
                i <= n,
                n == beliefs@.len(),
                r@.len() == i,
                forall|k: int| 0 <= k < i ==> #[trigger] r@[k] == idle(beliefs@[k], now),
            decreases n - i,
        {
            let seconds: i64 = now.seconds_since(&beliefs[i].last_activated_at);
            r.push(
                if seconds > 0 {
                    seconds
                } else {
                    0
                },
            );
            i = i + 1;
        }
        r
    }

    /// The confidences that time changes. `retained` holds, for each belief, the
    /// decay factor to the power of the days since it was last activated.
    pub fn decay_all(&self, beliefs: &[Belief], retained: &[Binary64]) -> (r: Result<
        Vec<(u128, Probability)>,
        GraphError,
    >)
        requires
            beliefs@.len() == retained@.len(),
        ensures
            r is Ok <==> forall|i: int|
                0 <= i < beliefs@.len() ==> can_decay(#[trigger] beliefs@[i], retained@[i]),
            r is Ok ==> updates_view(r->Ok_0@) == decayed_confidences(beliefs@, retained@),
            r is Err ==> r->Err_0 is ProbabilityOutOfRange
                && r->Err_0->ProbabilityOutOfRange_0.is_nan(),
    {
        let mut r: Vec<(u128, Probability)> = Vec::new();
        let n: usize = beliefs.len();
        let mut i: usize = 0;
        proof {
            assert(beliefs@.take(0) =~= Seq::empty());
            assert(updates_view(r@) =~= Seq::empty());
        }
        while i < n
            invariant
                i <= n,
                n == beliefs@.len(),
                n == retained@.len(),
                forall|k: int| 0 <= k < i ==> can_decay(#[trigger] beliefs@[k], retained@[k]),
                updates_view(r@) == decayed_confidences(
                    beliefs@.take(i as int),
                    retained@.take(i as int),
                ),
            decreases n - i,
        {
            let b = &beliefs[i];
            let ghost before = updates_view(r@);
            proof {
                assert(beliefs@.take(i + 1).drop_last() =~= beliefs@.take(i as int));
                assert(retained@.take(i + 1).drop_last() =~= retained@.take(i as int));
            }
            if b.memory_type != MemoryType::Experiential {
                match self.apply_decay(b.confidence, retained[i]) {
                    Ok(left) => {
                        let number = left.value();
                        let delta = number.distance_to(b.confidence.value());
                        proof {
                            lemma_units_order(Binary64 { bits: CHANGED_BITS }, delta);
                        }
                        if delta.bits > CHANGED_BITS {
                            r.push((b.id, left));
                            assert(updates_view(r@) =~= before.push((b.id, left.units())));
                        }
                    },
                    Err(e) => {
                        assert(!can_decay(beliefs@[i as int], retained@[i as int]));
                        return Err(e);
                    },
                }
            }
            i = i + 1;
        }
        assert(beliefs@.take(n as int) =~= beliefs@);
        assert(retained@.take(n as int) =~= retained@);
        Ok(r)
    }

    /// The defeated beliefs that may be deleted. Each edge names a defeater, the
    /// belief it defeats and the time of the defeat.
    pub fn find_expired_defeated(
        &self,
        edges: &[(u128, u128, Timestamp)],
        beliefs: &HashMap<u128, &Belief>,
        now: Timestamp,
        prob_threshold: Binary64,
        grace_minutes: i64,
    ) -> (r: Vec<u128>)
        ensures
            r@ == expired_targets(
                edges@,
                beliefs@,
                now,
                prob_threshold,
                grace_minutes as int,
                edges@.len() as int,
            ),
    {
        let mut r: Vec<u128> = Vec::new();
        let n: usize = edges.len();
        let mut i: usize = 0;
        while i < n
            invariant
                i <= n,
                n == edges@.len(),
                r@ == expired_targets(
                    edges@,
                    beliefs@,
                    now,
                    prob_threshold,
                    grace_minutes as int,
                    i as int,
                ),
            decreases n - i,
        {
            let id: u128 = edges[i].1;
            if !contains_id(&r, id) && self.is_expired(
                edges,
                beliefs,
                now,
                prob_threshold,
                grace_minutes,
                id,
            ) {
                r.push(id);
            }
            i = i + 1;
        }
        r
    }

    /// Whether a defeated belief may be deleted.
    fn is_expired(
        &self,
        edges: &[(u128, u128, Timestamp)],
        beliefs: &HashMap<u128, &Belief>,
        now: Timestamp,
        prob_threshold: Binary64,
        grace_minutes: i64,
        id: u128,
    ) -> (r: bool)
        ensures
            r == expired(edges@, beliefs@, now, prob_threshold, grace_minutes as int, id),
    {
        match beliefs.get(&id) {
            Some(b) => {
                if !b.probability.value().less_than(prob_threshold) {
                    return false;
                }
            },
            None => {
                return false;
            },
        }
        let grace: i128 = grace_minutes as i128 * 60_000_000_000;
        let n: usize = edges.len();
        let mut i: usize = 0;
        while i < n
            invariant
                i <= n,
                n == edges@.len(),
                grace == grace_minutes * 60_000_000_000,
                forall|k: int|
                    0 <= k < i && (#[trigger] edges@[k]).1 == id ==> elapsed_nanos(
                        now,
                        edges@[k].2,
                    ) >= grace,
            decreases n - i,
        {
            if edges[i].1 == id && now.nanos_since(&edges[i].2) < grace {
                return false;
            }
            i = i + 1;
        }
        true
    }
}

/// Whether an identifier is in a list.
pub fn contains_id(ids: &Vec<u128>, id: u128) -> (r: bool)
    ensures
        r == ids@.contains(id),
{
    let n: usize = ids.len();
    let mut i: usize = 0;
    while i < n
        invariant
            i <= n,
            n == ids@.len(),
            forall|k: int| 0 <= k < i ==> ids@[k] != id,
        decreases n - i,
    {
        if ids[i] == id {
            return true;
        }
        i = i + 1;
    }
    false
}

} // verus!
