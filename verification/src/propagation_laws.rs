//! What propagations and interventions make of the beliefs and edges that they are
//! given.
use vstd::arithmetic::power2::*;
use vstd::prelude::*;

use crate::binary64::{
    complement, distance, lemma_pattern_order, lemma_pattern_weak_order, one, pattern_units, plus,
    times, Binary64, SUMMAND_LIMIT,
};
use crate::graph::{is_count, mean_of, Belief, EdgeType, GraphError};
use crate::inference::{
    belief_values, combined, defeat_factor, edges_into, lemma_order_in_snapshot, moved, propagated,
    settled_units, snapshot, support_complement, surgical, swept, swept_ids, EdgeTuple, MAX_SWEEPS,
};
use crate::inference_laws::{
    distinct_ids, lemma_belief_value, lemma_swept_distinct, lemma_swept_from, lemma_values_in_range,
};
use crate::order_laws::{
    are_bounded, explains, final_values, is_explained, lemma_end_is_explained, weights_bounded,
    within,
};
use crate::posterior::{
    is_reported, is_stable, layered_by, lemma_reported_counts, lemma_reports_changes,
    lemma_one_fixpoint, lemma_settles, posterior, posterior_mean, posteriors, prior_values,
    refused_prior, revised, settled_means, start_values,
};
use crate::rounding::lemma_round_close;
use crate::sequences::{lemma_filter_members, lemma_filter_same, lemma_filter_twice};
use crate::sorting::ascending;

verus! {

/// A number can be a count exactly when it is finite, has no sign and lies below
/// `2^1023`.
pub proof fn law_counts_are_the_numbers_that_can_be_added(v: Binary64)
    ensures
        is_count(v) <==> !v.is_negative() && v.is_finite() && v.value() < pow2(2097),
{
    lemma2_to64();
    lemma2_to64_rest();
    assert(SUMMAND_LIMIT as nat / 0x0010_0000_0000_0000 == 2046);
    assert(SUMMAND_LIMIT as nat % 0x0010_0000_0000_0000 == 0);
    lemma_pow2_adds(52, 2045);
    assert(pattern_units(SUMMAND_LIMIT) == pow2(2097));
    if v.bits < SUMMAND_LIMIT {
        lemma_pattern_order(v.bits, SUMMAND_LIMIT);
    } else if v.bits < 0x8000_0000_0000_0000 {
        lemma_pattern_weak_order(SUMMAND_LIMIT, v.bits);
    }
}

/// A propagation of evidence is refused exactly when some belief has a prior that is
/// no pair of counts, and the refusal names the first such number. Nothing else of a
/// belief is a reason: neither its project nor its memory type nor its content.
pub proof fn law_only_a_bad_prior_is_refused(beliefs: Seq<Belief>)
    ensures
        refused_prior(beliefs) is None <==> forall|i: int|
            0 <= i < beliefs.len() ==> is_count((#[trigger] beliefs[i]).alpha0) && is_count(
                beliefs[i].beta0,
            ),
        refused_prior(beliefs) is Some ==> exists|i: int|
            {
                &&& 0 <= i < beliefs.len()
                &&& forall|k: int|
                    0 <= k < i ==> is_count((#[trigger] beliefs[k]).alpha0) && is_count(
                        beliefs[k].beta0,
                    )
                &&& refused_prior(beliefs) == Some(
                    GraphError::CountOutOfRange(
                        if is_count((#[trigger] beliefs[i]).alpha0) {
                            beliefs[i].beta0
                        } else {
                            beliefs[i].alpha0
                        },
                    ),
                )
                &&& !is_count(beliefs[i].alpha0) || !is_count(beliefs[i].beta0)
            },
    decreases beliefs.len(),
{
    if beliefs.len() > 0 {
        let shorter = beliefs.drop_last();
        let n = shorter.len() as int;
        law_only_a_bad_prior_is_refused(shorter);
        assert(beliefs[n] == beliefs.last());
        assert forall|k: int| 0 <= k < n implies #[trigger] beliefs[k] == shorter[k] by {}
        if refused_prior(shorter) is Some {
            let i = choose|i: int|
                {
                    &&& 0 <= i < shorter.len()
                    &&& forall|k: int|
                        0 <= k < i ==> is_count((#[trigger] shorter[k]).alpha0) && is_count(
                            shorter[k].beta0,
                        )
                    &&& refused_prior(shorter) == Some(
                        GraphError::CountOutOfRange(
                            if is_count((#[trigger] shorter[i]).alpha0) {
                                shorter[i].beta0
                            } else {
                                shorter[i].alpha0
                            },
                        ),
                    )
                    &&& !is_count(shorter[i].alpha0) || !is_count(shorter[i].beta0)
                };
            assert(beliefs[i] == shorter[i]);
            assert forall|k: int| 0 <= k < i implies is_count((#[trigger] beliefs[k]).alpha0)
                && is_count(beliefs[k].beta0) by {
                assert(is_count(shorter[k].alpha0));
            }
        } else {
            assert forall|k: int| 0 <= k < n implies is_count((#[trigger] beliefs[k]).alpha0)
                && is_count(beliefs[k].beta0) by {
                assert(is_count(shorter[k].alpha0));
            }
        }
    }
}

/// The edges that an intervention follows are all the given edges that cause and do
/// not lead into its target, in their given order.
pub proof fn law_surgery_keeps_every_other_cause(edges: Seq<EdgeTuple>, target: u128)
    ensures
        surgical(edges, target) == edges.filter(
            |e: EdgeTuple| e.2 == EdgeType::Causes && e.1 != target,
        ),
        forall|e: EdgeTuple| #[trigger]
            surgical(edges, target).contains(e) <==> edges.contains(e) && e.2 == EdgeType::Causes
                && e.1 != target,
    decreases edges.len(),
{
    reveal(Seq::filter);
    let p = |e: EdgeTuple| e.2 == EdgeType::Causes && e.1 != target;
    if edges.len() > 0 {
        law_surgery_keeps_every_other_cause(edges.drop_last(), target);
        assert(surgical(edges, target) =~= edges.filter(p));
    } else {
        assert(surgical(edges, target) =~= edges.filter(p));
    }
    assert forall|e: EdgeTuple| #[trigger] surgical(edges, target).contains(e) <==> edges.contains(
        e,
    ) && e.2 == EdgeType::Causes && e.1 != target by {
        lemma_filter_members(edges, p, e);
    }
}

/// Where every edge causes and none leads into the target, surgery leaves them all:
/// an intervention then projects what the propagation of the same value does.
pub proof fn law_intervention_propagates_along_causes(
    target: u128,
    value: nat,
    downstream: Seq<Belief>,
    edges: Seq<EdgeTuple>,
)
    requires
        forall|i: int|
            0 <= i < edges.len() ==> (#[trigger] edges[i]).2 == EdgeType::Causes && edges[i].1
                != target,
    ensures
        propagated(target, value, downstream, surgical(edges, target)) == propagated(
            target,
            value,
            downstream,
            edges,
        ),
{
    lemma_nothing_cut(edges, target);
}

proof fn lemma_nothing_cut(edges: Seq<EdgeTuple>, target: u128)
    requires
        forall|i: int|
            0 <= i < edges.len() ==> (#[trigger] edges[i]).2 == EdgeType::Causes && edges[i].1
                != target,
    ensures
        surgical(edges, target) == edges,
    decreases edges.len(),
{
    if edges.len() > 0 {
        let shorter = edges.drop_last();
        assert forall|i: int| 0 <= i < shorter.len() implies (#[trigger] shorter[i]).2
            == EdgeType::Causes && shorter[i].1 != target by {
            assert(shorter[i] == edges[i]);
        }
        lemma_nothing_cut(shorter, target);
        assert(edges[edges.len() - 1] == edges.last());
        assert(shorter.push(edges.last()) =~= edges);
    } else {
        assert(surgical(edges, target) =~= edges);
    }
}

/// Of the beliefs downstream, a propagation looks at the identifiers, the
/// probabilities and the priors, and at nothing else: beliefs that differ in project,
/// memory type, content or times are revised alike.
pub proof fn law_only_numbers_of_beliefs_matter(
    external: Map<u128, nat>,
    seed_id: u128,
    seed: nat,
    a: Seq<Belief>,
    b: Seq<Belief>,
    edges: Seq<EdgeTuple>,
)
    requires
        a.len() == b.len(),
        forall|i: int|
            0 <= i < a.len() ==> {
                &&& (#[trigger] a[i]).id == b[i].id
                &&& a[i].probability.units() == b[i].probability.units()
                &&& a[i].alpha0 == b[i].alpha0
                &&& a[i].beta0 == b[i].beta0
            },
    ensures
        propagated(seed_id, seed, a, edges) == propagated(seed_id, seed, b, edges),
        posteriors(external, seed_id, seed, a, edges) == posteriors(
            external,
            seed_id,
            seed,
            b,
            edges,
        ),
        refused_prior(a) == refused_prior(b),
{
    lemma_numbers_alike(seed_id, a, b);
}

proof fn lemma_numbers_alike(seed_id: u128, a: Seq<Belief>, b: Seq<Belief>)
    requires
        a.len() == b.len(),
        forall|i: int|
            0 <= i < a.len() ==> {
                &&& (#[trigger] a[i]).id == b[i].id
                &&& a[i].probability.units() == b[i].probability.units()
                &&& a[i].alpha0 == b[i].alpha0
                &&& a[i].beta0 == b[i].beta0
            },
    ensures
        belief_values(a) == belief_values(b),
        prior_values(a) == prior_values(b),
        swept_ids(a, seed_id) == swept_ids(b, seed_id),
        refused_prior(a) == refused_prior(b),
    decreases a.len(),
{
    if a.len() > 0 {
        let x = a.drop_last();
        let y = b.drop_last();
        assert forall|i: int| 0 <= i < x.len() implies {
            &&& (#[trigger] x[i]).id == y[i].id
            &&& x[i].probability.units() == y[i].probability.units()
            &&& x[i].alpha0 == y[i].alpha0
            &&& x[i].beta0 == y[i].beta0
        } by {
            assert(x[i] == a[i] && y[i] == b[i]);
        }
        lemma_numbers_alike(seed_id, x, y);
        assert(a[a.len() - 1].id == b[a.len() - 1].id);
    }
}

/// A source that a propagation knows a mean of: the seed, a belief downstream, or a
/// source outside whose mean is given.
pub open spec fn is_source(
    external: Map<u128, nat>,
    seed_id: u128,
    downstream: Seq<Belief>,
    x: u128,
) -> bool {
    x == seed_id || external.contains_key(x) || exists|i: int|
        0 <= i < downstream.len() && (#[trigger] downstream[i]).id == x
}

/// An edge counts on one side of a belief: it comes from a known source, and supports
/// or causes the belief, or else defeats it.
pub open spec fn counts_on_side(
    e: EdgeTuple,
    to: u128,
    sources: spec_fn(u128) -> bool,
    in_favour: bool,
) -> bool {
    &&& e.1 == to
    &&& sources(e.0)
    &&& if in_favour {
        e.2 == EdgeType::Supports || e.2 == EdgeType::Causes
    } else {
        e.2 == EdgeType::Defeats
    }
}

/// A count with the evidence of all edges into a belief that count on one side: four
/// times the weight times the mean of the source each.
pub open spec fn with_evidence(
    prior: nat,
    edges: Seq<EdgeTuple>,
    to: u128,
    sources: spec_fn(u128) -> bool,
    means: Map<u128, nat>,
    in_favour: bool,
) -> nat {
    edges.filter(|e: EdgeTuple| counts_on_side(e, to, sources, in_favour)).fold_left(
        prior,
        |sum: nat, e: EdgeTuple| plus(sum, times(times(e.3.units(), means[e.0]), 4 * one())),
    )
}

/// Edges into a belief are all the given ones that lead to it from a known source, in
/// their given order.
pub proof fn law_every_edge_of_a_known_source_counts(
    edges: Seq<EdgeTuple>,
    base: Map<u128, nat>,
    v: u128,
)
    ensures
        edges_into(edges, base, v) == edges.filter(
            |e: EdgeTuple| e.1 == v && base.contains_key(e.0),
        ),
    decreases edges.len(),
{
    reveal(Seq::filter);
    let p = |e: EdgeTuple| e.1 == v && base.contains_key(e.0);
    if edges.len() > 0 {
        law_every_edge_of_a_known_source_counts(edges.drop_last(), base, v);
    }
    assert(edges_into(edges, base, v) =~= edges.filter(p));
}

/// Each side of the counts is its prior and the evidence of the edges of that side.
proof fn lemma_counts_by_side(prior: (nat, nat), incoming: Seq<EdgeTuple>, val: Map<u128, nat>)
    ensures
        ({
            let add = |sum: nat, e: EdgeTuple|
                plus(sum, times(times(e.3.units(), val[e.0]), 4 * one()));
            let pro = |e: EdgeTuple| e.2 == EdgeType::Supports || e.2 == EdgeType::Causes;
            let con = |e: EdgeTuple| e.2 == EdgeType::Defeats;
            posterior(prior, incoming, val) == (
                incoming.filter(pro).fold_left(prior.0, add),
                incoming.filter(con).fold_left(prior.1, add),
            )
        }),
    decreases incoming.len(),
{
    reveal(Seq::filter);
    let add = |sum: nat, e: EdgeTuple| plus(sum, times(times(e.3.units(), val[e.0]), 4 * one()));
    let pro = |e: EdgeTuple| e.2 == EdgeType::Supports || e.2 == EdgeType::Causes;
    let con = |e: EdgeTuple| e.2 == EdgeType::Defeats;
    if incoming.len() > 0 {
        let shorter = incoming.drop_last();
        lemma_counts_by_side(prior, shorter, val);
        let x = shorter.filter(pro);
        let y = shorter.filter(con);
        assert(x.push(incoming.last()).drop_last() =~= x);
        assert(y.push(incoming.last()).drop_last() =~= y);
    }
}

/// The counts of a belief are those of its prior and four times the weight times the
/// mean of the source for each of its edges: in favour for supporting and causing
/// edges, against for defeating ones.
pub proof fn law_evidence_is_four_times_weight_and_mean(
    prior: (nat, nat),
    edges: Seq<EdgeTuple>,
    base: Map<u128, nat>,
    v: u128,
    means: Map<u128, nat>,
)
    ensures
        ({
            let known = |x: u128| base.contains_key(x);
            posterior(prior, edges_into(edges, base, v), means) == (
                with_evidence(prior.0, edges, v, known, means, true),
                with_evidence(prior.1, edges, v, known, means, false),
            )
        }),
{
    lemma_side_of_counts(prior.0, edges, base, v, means, true);
    lemma_side_of_counts(prior.1, edges, base, v, means, false);
    law_every_edge_of_a_known_source_counts(edges, base, v);
    lemma_counts_by_side(prior, edges_into(edges, base, v), means);
}

proof fn lemma_side_of_counts(
    prior: nat,
    edges: Seq<EdgeTuple>,
    base: Map<u128, nat>,
    v: u128,
    means: Map<u128, nat>,
    in_favour: bool,
)
    ensures
        ({
            let add = |sum: nat, e: EdgeTuple|
                plus(sum, times(times(e.3.units(), means[e.0]), 4 * one()));
            let into = edges.filter(|e: EdgeTuple| e.1 == v && base.contains_key(e.0));
            let pro = |e: EdgeTuple| e.2 == EdgeType::Supports || e.2 == EdgeType::Causes;
            let con = |e: EdgeTuple| e.2 == EdgeType::Defeats;
            with_evidence(
                prior,
                edges,
                v,
                |x: u128| base.contains_key(x),
                means,
                in_favour,
            ) == if in_favour {
                into.filter(pro).fold_left(prior, add)
            } else {
                into.filter(con).fold_left(prior, add)
            }
        }),
{
    let known = |x: u128| base.contains_key(x);
    let into = |e: EdgeTuple| e.1 == v && base.contains_key(e.0);
    let side = |e: EdgeTuple| counts_on_side(e, v, known, in_favour);
    let pro = |e: EdgeTuple| e.2 == EdgeType::Supports || e.2 == EdgeType::Causes;
    let con = |e: EdgeTuple| e.2 == EdgeType::Defeats;
    lemma_filter_twice(edges, into, pro);
    lemma_filter_twice(edges, into, con);
    if in_favour {
        lemma_filter_same(edges, |e: EdgeTuple| into(e) && pro(e), side);
    } else {
        lemma_filter_same(edges, |e: EdgeTuple| into(e) && con(e), side);
    }
}

/// The counts that the prior of a belief and the means of its sources entail.
pub open spec fn entailed_counts(
    external: Map<u128, nat>,
    seed_id: u128,
    downstream: Seq<Belief>,
    edges: Seq<EdgeTuple>,
    means: Map<u128, nat>,
    b: Belief,
) -> (nat, nat) {
    let sources = |x: u128| is_source(external, seed_id, downstream, x);
    (
        with_evidence(b.alpha0.units(), edges, b.id, sources, means, true),
        with_evidence(b.beta0.units(), edges, b.id, sources, means, false),
    )
}

/// The seed has its own mean, a source outside the one that is given, and every belief
/// downstream the mean of the counts that its prior and its sources entail.
pub open spec fn are_entailed(
    means: Map<u128, nat>,
    external: Map<u128, nat>,
    seed_id: u128,
    seed: nat,
    downstream: Seq<Belief>,
    edges: Seq<EdgeTuple>,
) -> bool {
    &&& means[seed_id] == seed
    &&& forall|x: u128| #[trigger]
        external.contains_key(x) && x != seed_id && (forall|i: int|
            0 <= i < downstream.len() ==> (#[trigger] downstream[i]).id != x) ==> means[x]
            == external[x]
    &&& forall|i: int|
        0 <= i < downstream.len() && (#[trigger] downstream[i]).id != seed_id ==> {
            let counts = entailed_counts(
                external,
                seed_id,
                downstream,
                edges,
                means,
                downstream[i],
            );
            means[downstream[i].id] == mean_of(counts.0, counts.1)
        }
}

/// No path of propagating edges between the beliefs downstream visits more than fifty
/// of them: `rank` grows along every such edge.
pub open spec fn is_shallow(
    downstream: Seq<Belief>,
    seed_id: u128,
    edges: Seq<EdgeTuple>,
    rank: spec_fn(u128) -> nat,
) -> bool {
    &&& forall|i: int|
        0 <= i < downstream.len() && (#[trigger] downstream[i]).id != seed_id ==> rank(
            downstream[i].id,
        ) < 50
    &&& forall|k: int, i: int, j: int|
        #![trigger edges[k], downstream[i], downstream[j]]
        0 <= k < edges.len() && 0 <= i < downstream.len() && 0 <= j < downstream.len()
            && edges[k].0 == downstream[i].id && edges[k].1 == downstream[j].id && edges[k].0
            != seed_id && edges[k].1 != seed_id && edges[k].2 != EdgeType::Contradicts ==> rank(
            edges[k].0,
        ) < rank(edges[k].1)
}

/// The beliefs that a propagation visits are those downstream without the seed.
proof fn lemma_visited(downstream: Seq<Belief>, seed_id: u128, x: u128)
    ensures
        ascending(swept_ids(downstream, seed_id)).contains(x) <==> x != seed_id && exists|i: int|
            0 <= i < downstream.len() && (#[trigger] downstream[i]).id == x,
        ascending(swept_ids(downstream, seed_id)).to_multiset() == swept_ids(
            downstream,
            seed_id,
        ).to_multiset(),
{
    broadcast use vstd::seq_lib::group_to_multiset_ensures;

    let ids = swept_ids(downstream, seed_id);
    let order = ascending(ids);
    ids.lemma_sort_by_ensures(|a: u128, b: u128| a <= b);
    assert(order.contains(x) <==> order.to_multiset().count(x) > 0);
    assert(ids.contains(x) <==> ids.to_multiset().count(x) > 0);
    lemma_swept_from(downstream, seed_id, x);
}

/// Beliefs with different identifiers have their own priors.
proof fn lemma_prior_value(beliefs: Seq<Belief>, i: int)
    requires
        distinct_ids(beliefs),
        0 <= i < beliefs.len(),
    ensures
        prior_values(beliefs)[beliefs[i].id] == (beliefs[i].alpha0.units(), beliefs[i].beta0.units()),
    decreases beliefs.len(),
{
    let shorter = beliefs.drop_last();
    assert(beliefs[beliefs.len() - 1] == beliefs.last());
    if i < shorter.len() {
        assert forall|a: int, b: int|
            0 <= a < shorter.len() && 0 <= b < shorter.len() && a != b implies (
        #[trigger] shorter[a]).id != (#[trigger] shorter[b]).id by {
            assert(beliefs[a].id != beliefs[b].id);
        }
        lemma_prior_value(shorter, i);
        assert(shorter[i] == beliefs[i]);
        assert(beliefs[i].id != beliefs[beliefs.len() - 1].id);
    }
}

/// What a propagation knows at its start of the beliefs that it visits.
proof fn lemma_start(
    external: Map<u128, nat>,
    seed_id: u128,
    seed: nat,
    downstream: Seq<Belief>,
    edges: Seq<EdgeTuple>,
    means: Map<u128, nat>,
    i: int,
)
    requires
        distinct_ids(downstream),
        0 <= i < downstream.len(),
        downstream[i].id != seed_id,
    ensures
        ({
            let b = downstream[i];
            let base = start_values(external, downstream, seed_id, seed);
            &&& base.contains_key(b.id)
            &&& base[b.id] == b.probability.units()
            &&& ascending(swept_ids(downstream, seed_id)).contains(b.id)
            &&& posterior(
                prior_values(downstream)[b.id],
                edges_into(edges, base, b.id),
                means,
            ) == entailed_counts(external, seed_id, downstream, edges, means, b)
        }),
{
    let b = downstream[i];
    let base = start_values(external, downstream, seed_id, seed);
    let prior = prior_values(downstream)[b.id];
    lemma_belief_value(downstream, b.id);
    lemma_visited(downstream, seed_id, b.id);
    lemma_prior_value(downstream, i);
    law_evidence_is_four_times_weight_and_mean(prior, edges, base, b.id, means);
    let known = |x: u128| base.contains_key(x);
    let sources = |x: u128| is_source(external, seed_id, downstream, x);
    assert forall|x: u128| #[trigger] base.contains_key(x) <==> is_source(
        external,
        seed_id,
        downstream,
        x,
    ) by {
        lemma_belief_value(downstream, x);
    }
    assert(known =~= sources);
}

/// The values at the start of everything that is not visited.
proof fn lemma_outside(
    external: Map<u128, nat>,
    seed_id: u128,
    seed: nat,
    downstream: Seq<Belief>,
    x: u128,
)
    requires
        distinct_ids(downstream),
        start_values(external, downstream, seed_id, seed).contains_key(x),
        !ascending(swept_ids(downstream, seed_id)).contains(x),
    ensures
        x == seed_id || (external.contains_key(x) && forall|i: int|
            0 <= i < downstream.len() ==> (#[trigger] downstream[i]).id != x),
        start_values(external, downstream, seed_id, seed)[x] == if x == seed_id {
            seed
        } else {
            external[x]
        },
{
    lemma_visited(downstream, seed_id, x);
    lemma_belief_value(downstream, x);
}

/// There are means that the priors, the edges and the seed entail, where the beliefs
/// form no cycle and no path is longer than fifty.
pub proof fn law_propagation_has_a_fixed_point(
    external: Map<u128, nat>,
    seed_id: u128,
    seed: nat,
    downstream: Seq<Belief>,
    edges: Seq<EdgeTuple>,
    rank: spec_fn(u128) -> nat,
)
    requires
        distinct_ids(downstream),
        is_shallow(downstream, seed_id, edges, rank),
    ensures
        exists|means: Map<u128, nat>|
            are_entailed(means, external, seed_id, seed, downstream, edges),
{
    let base = start_values(external, downstream, seed_id, seed);
    let order = ascending(swept_ids(downstream, seed_id));
    let priors = prior_values(downstream);
    let means = settled_means(order, edges, base, priors, base, MAX_SWEEPS as nat);
    lemma_end_is_entailed(external, seed_id, seed, downstream, edges, rank);
    assert(are_entailed(means, external, seed_id, seed, downstream, edges));
}

proof fn lemma_layered(
    seed_id: u128,
    downstream: Seq<Belief>,
    edges: Seq<EdgeTuple>,
    rank: spec_fn(u128) -> nat,
)
    requires
        is_shallow(downstream, seed_id, edges, rank),
    ensures
        layered_by(ascending(swept_ids(downstream, seed_id)), edges, MAX_SWEEPS as nat, rank),
{
    let order = ascending(swept_ids(downstream, seed_id));
    assert forall|i: int| 0 <= i < order.len() implies rank(#[trigger] order[i])
        < MAX_SWEEPS as nat by {
        assert(order.contains(order[i]));
        lemma_visited(downstream, seed_id, order[i]);
    }
    assert forall|k: int|
        0 <= k < edges.len() && order.contains((#[trigger] edges[k]).0) && order.contains(
            edges[k].1,
        ) && edges[k].2 != EdgeType::Contradicts implies rank(edges[k].0) < rank(edges[k].1) by {
        lemma_visited(downstream, seed_id, edges[k].0);
        lemma_visited(downstream, seed_id, edges[k].1);
        let i = choose|i: int|
            0 <= i < downstream.len() && (#[trigger] downstream[i]).id == edges[k].0;
        let j = choose|j: int|
            0 <= j < downstream.len() && (#[trigger] downstream[j]).id == edges[k].1;
        assert(downstream[i].id == edges[k].0 && downstream[j].id == edges[k].1);
    }
}

proof fn lemma_end_is_entailed(
    external: Map<u128, nat>,
    seed_id: u128,
    seed: nat,
    downstream: Seq<Belief>,
    edges: Seq<EdgeTuple>,
    rank: spec_fn(u128) -> nat,
)
    requires
        distinct_ids(downstream),
        is_shallow(downstream, seed_id, edges, rank),
    ensures
        ({
            let base = start_values(external, downstream, seed_id, seed);
            let order = ascending(swept_ids(downstream, seed_id));
            let priors = prior_values(downstream);
            let means = settled_means(order, edges, base, priors, base, MAX_SWEEPS as nat);
            &&& are_entailed(means, external, seed_id, seed, downstream, edges)
            &&& layered_by(order, edges, MAX_SWEEPS as nat, rank)
            &&& is_stable(order, edges, base, priors, means, MAX_SWEEPS as nat, rank)
            &&& forall|x: u128| !order.contains(x) ==> base[x] == #[trigger] means[x]
        }),
{
    let base = start_values(external, downstream, seed_id, seed);
    let order = ascending(swept_ids(downstream, seed_id));
    let priors = prior_values(downstream);
    let n = MAX_SWEEPS as nat;
    let means = settled_means(order, edges, base, priors, base, n);
    lemma_layered(seed_id, downstream, edges, rank);
    lemma_visited(downstream, seed_id, seed_id);
    lemma_order_in_snapshot(downstream, seed_id, seed, order);
    assert forall|j: int| 0 <= j < order.len() implies base.contains_key(#[trigger] order[j]) by {
        assert(snapshot(downstream, seed_id, seed).contains_key(order[j]));
    }
    lemma_settles(order, edges, base, priors, base, n, 0, rank);
    assert(means[seed_id] == base[seed_id]);
    assert forall|x: u128| #[trigger]
        external.contains_key(x) && x != seed_id && (forall|i: int|
            0 <= i < downstream.len() ==> (#[trigger] downstream[i]).id != x) implies means[x]
        == external[x] by {
        lemma_visited(downstream, seed_id, x);
        lemma_belief_value(downstream, x);
        assert(means[x] == base[x]);
    }
    assert forall|i: int|
        0 <= i < downstream.len() && (#[trigger] downstream[i]).id != seed_id implies {
        let counts = entailed_counts(external, seed_id, downstream, edges, means, downstream[i]);
        means[downstream[i].id] == mean_of(counts.0, counts.1)
    } by {
        let v = downstream[i].id;
        lemma_start(external, seed_id, seed, downstream, edges, means, i);
        let k = choose|k: int| 0 <= k < order.len() && order[k] == v;
        assert(rank(order[k]) < n);
        assert(means[order[k]] == posterior_mean(
            priors[order[k]],
            edges_into(edges, base, order[k]),
            means,
        ));
    }
}

/// A propagation of evidence reports the beliefs downstream whose mean moves by more
/// than `10^-9`, each with the counts that its prior and the means of its sources
/// entail, and no others. The means are those at which every belief agrees with its
/// sources; where the beliefs form no cycle, there is only one such assignment.
pub proof fn law_propagation_reports_what_is_entailed(
    external: Map<u128, nat>,
    seed_id: u128,
    seed: nat,
    downstream: Seq<Belief>,
    edges: Seq<EdgeTuple>,
    rank: spec_fn(u128) -> nat,
    means: Map<u128, nat>,
    i: int,
    counts: (nat, nat),
)
    requires
        distinct_ids(downstream),
        is_shallow(downstream, seed_id, edges, rank),
        are_entailed(means, external, seed_id, seed, downstream, edges),
        0 <= i < downstream.len(),
    ensures
        is_reported(
            posteriors(external, seed_id, seed, downstream, edges),
            downstream[i].id,
            counts,
        ) <==> {
            &&& downstream[i].id != seed_id
            &&& counts == entailed_counts(
                external,
                seed_id,
                downstream,
                edges,
                means,
                downstream[i],
            )
            &&& distance(mean_of(counts.0, counts.1), downstream[i].probability.units())
                > settled_units()
        },
{
    let b = downstream[i];
    let base = start_values(external, downstream, seed_id, seed);
    let order = ascending(swept_ids(downstream, seed_id));
    let priors = prior_values(downstream);
    let n = MAX_SWEEPS as nat;
    let end = settled_means(order, edges, base, priors, base, n);
    let report = posteriors(external, seed_id, seed, downstream, edges);
    lemma_end_is_entailed(external, seed_id, seed, downstream, edges, rank);
    if is_reported(report, b.id, counts) {
        let k = choose|k: int| 0 <= k < report.len() && #[trigger] report[k] == (b.id, counts);
        lemma_reported_moved(order, edges, base, priors, end, k);
        lemma_visited(downstream, seed_id, b.id);
    }
    if b.id != seed_id {
        lemma_entailed_is_stable(external, seed_id, seed, downstream, edges, rank, means);
        assert forall|x: u128| base.contains_key(x) implies #[trigger] means[x] == end[x] by {
            if order.contains(x) {
                let j = choose|j: int| 0 <= j < order.len() && order[j] == x;
                lemma_agree_outside(external, seed_id, seed, downstream, edges, means);
                lemma_one_fixpoint(order, edges, base, priors, means, end, n, rank, j);
            } else {
                lemma_agree_outside(external, seed_id, seed, downstream, edges, means);
            }
        }
        lemma_start(external, seed_id, seed, downstream, edges, means, i);
        lemma_start(external, seed_id, seed, downstream, edges, end, i);
        lemma_same_means(prior_values(downstream)[b.id], edges, base, b.id, means, end);
        let j = choose|j: int| 0 <= j < order.len() && order[j] == b.id;
        let c = posterior(priors[b.id], edges_into(edges, base, b.id), end);
        if distance(mean_of(c.0, c.1), base[b.id]) > settled_units() {
            lemma_reports_changes(order, edges, base, priors, end, j);
        }
        if is_reported(report, b.id, counts) {
            let k = choose|k: int| 0 <= k < report.len() && #[trigger] report[k] == (b.id, counts);
            lemma_reported_counts(order, edges, base, priors, end, k);
        }
    }
}

proof fn lemma_agree_outside(
    external: Map<u128, nat>,
    seed_id: u128,
    seed: nat,
    downstream: Seq<Belief>,
    edges: Seq<EdgeTuple>,
    means: Map<u128, nat>,
)
    requires
        distinct_ids(downstream),
        are_entailed(means, external, seed_id, seed, downstream, edges),
    ensures
        forall|x: u128|
            start_values(external, downstream, seed_id, seed).contains_key(x) && !ascending(
                swept_ids(downstream, seed_id),
            ).contains(x) ==> #[trigger] means[x] == start_values(
                external,
                downstream,
                seed_id,
                seed,
            )[x],
{
    let base = start_values(external, downstream, seed_id, seed);
    let order = ascending(swept_ids(downstream, seed_id));
    assert forall|x: u128| base.contains_key(x) && !order.contains(x) implies #[trigger] means[x]
        == base[x] by {
        lemma_outside(external, seed_id, seed, downstream, x);
    }
}

proof fn lemma_entailed_is_stable(
    external: Map<u128, nat>,
    seed_id: u128,
    seed: nat,
    downstream: Seq<Belief>,
    edges: Seq<EdgeTuple>,
    rank: spec_fn(u128) -> nat,
    means: Map<u128, nat>,
)
    requires
        distinct_ids(downstream),
        are_entailed(means, external, seed_id, seed, downstream, edges),
    ensures
        is_stable(
            ascending(swept_ids(downstream, seed_id)),
            edges,
            start_values(external, downstream, seed_id, seed),
            prior_values(downstream),
            means,
            MAX_SWEEPS as nat,
            rank,
        ),
{
    let base = start_values(external, downstream, seed_id, seed);
    let order = ascending(swept_ids(downstream, seed_id));
    let priors = prior_values(downstream);
    assert forall|k: int|
        0 <= k < order.len() && rank(#[trigger] order[k]) < MAX_SWEEPS as nat implies means[order[k]]
        == posterior_mean(priors[order[k]], edges_into(edges, base, order[k]), means) by {
        assert(order.contains(order[k]));
        lemma_visited(downstream, seed_id, order[k]);
        let i = choose|i: int| 0 <= i < downstream.len() && (#[trigger] downstream[i]).id == order[k];
        lemma_start(external, seed_id, seed, downstream, edges, means, i);
    }
}

/// Means that agree on all sources give the same counts.
proof fn lemma_same_means(
    prior: (nat, nat),
    edges: Seq<EdgeTuple>,
    base: Map<u128, nat>,
    v: u128,
    a: Map<u128, nat>,
    b: Map<u128, nat>,
)
    requires
        forall|x: u128| base.contains_key(x) ==> #[trigger] a[x] == b[x],
    ensures
        posterior(prior, edges_into(edges, base, v), a) == posterior(
            prior,
            edges_into(edges, base, v),
            b,
        ),
    decreases edges.len(),
{
    let into = edges_into(edges, base, v);
    if edges.len() > 0 {
        let shorter = edges.drop_last();
        lemma_same_means(prior, shorter, base, v, a, b);
        let before = edges_into(shorter, base, v);
        if edges.last().1 == v && base.contains_key(edges.last().0) {
            assert(into.drop_last() =~= before);
            assert(a[edges.last().0] == b[edges.last().0]);
        }
    }
}

/// What is reported was visited and has moved.
proof fn lemma_reported_moved(
    order: Seq<u128>,
    edges: Seq<EdgeTuple>,
    base: Map<u128, nat>,
    priors: Map<u128, (nat, nat)>,
    val: Map<u128, nat>,
    k: int,
)
    requires
        0 <= k < revised(order, edges, base, priors, val).len(),
    ensures
        ({
            let (v, counts) = revised(order, edges, base, priors, val)[k];
            &&& order.contains(v)
            &&& distance(mean_of(counts.0, counts.1), base[v]) > settled_units()
        }),
    decreases order.len(),
{
    if order.len() > 0 {
        let shorter = order.drop_last();
        let before = revised(shorter, edges, base, priors, val);
        if k < before.len() {
            lemma_reported_moved(shorter, edges, base, priors, val, k);
            let v = before[k].0;
            let j = choose|j: int| 0 <= j < shorter.len() && shorter[j] == v;
            assert(order[j] == v);
        } else {
            assert(order[order.len() - 1] == order.last());
        }
    }
}

/// The change that is noticed is `10^-9`, up to the last place of its number.
pub proof fn law_a_change_of_a_billionth_is_noticed()
    ensures
        settled_units() * 1_000_000_000 <= one() + pow2(992) * 1_000_000_000,
        one() <= settled_units() * 1_000_000_000 + pow2(992) * 1_000_000_000,
{
    lemma2_to64();
    lemma_pow2_adds(29, 1045);
    assert(pow2(1074) <= pow2(1045) * 1_000_000_000) by (nonlinear_arith)
        requires
            pow2(1074) == pow2(29) * pow2(1045),
            pow2(29) == 0x2000_0000,
    ;
    assert(1 * one() == one());
    lemma_round_close(53, 1 * one(), 1_000_000_000, 1045);
}

/// Reports name each belief once, in the order of the identifiers.
pub proof fn law_reports_are_in_order(
    external: Map<u128, nat>,
    seed_id: u128,
    seed: nat,
    downstream: Seq<Belief>,
    edges: Seq<EdgeTuple>,
)
    requires
        distinct_ids(downstream),
    ensures
        ({
            let report = posteriors(external, seed_id, seed, downstream, edges);
            forall|i: int, j: int|
                0 <= i < j < report.len() ==> (#[trigger] report[i]).0 < (#[trigger] report[j]).0
        }),
        ({
            let report = propagated(seed_id, seed, downstream, edges);
            forall|i: int, j: int|
                0 <= i < j < report.len() ==> (#[trigger] report[i]).0 < (#[trigger] report[j]).0
        }),
{
    let base = start_values(external, downstream, seed_id, seed);
    let order = ascending(swept_ids(downstream, seed_id));
    let priors = prior_values(downstream);
    let n = MAX_SWEEPS as nat;
    lemma_order_rises(downstream, seed_id);
    lemma_revised_rises(
        order,
        edges,
        base,
        priors,
        settled_means(order, edges, base, priors, base, n),
    );
    let start = snapshot(downstream, seed_id, seed);
    lemma_moved_rises(order, start, swept(order, edges, start, start, n));
}

/// Identifiers that rise.
spec fn rises(order: Seq<u128>) -> bool {
    forall|i: int, j: int| 0 <= i < j < order.len() ==> order[i] < order[j]
}

proof fn lemma_order_rises(downstream: Seq<Belief>, seed_id: u128)
    requires
        distinct_ids(downstream),
    ensures
        rises(ascending(swept_ids(downstream, seed_id))),
        ascending(swept_ids(downstream, seed_id)).no_duplicates(),
{
    let ids = swept_ids(downstream, seed_id);
    let order = ascending(ids);
    let leq = |a: u128, b: u128| a <= b;
    ids.lemma_sort_by_ensures(leq);
    lemma_swept_distinct(downstream, seed_id);
    ids.lemma_multiset_has_no_duplicates();
    order.lemma_multiset_has_no_duplicates_conv();
    assert forall|i: int, j: int| 0 <= i < j < order.len() implies order[i] < order[j] by {
        assert(leq(order[i], order[j]));
    }
}

proof fn lemma_revised_rises(
    order: Seq<u128>,
    edges: Seq<EdgeTuple>,
    base: Map<u128, nat>,
    priors: Map<u128, (nat, nat)>,
    val: Map<u128, nat>,
)
    requires
        rises(order),
    ensures
        ({
            let report = revised(order, edges, base, priors, val);
            &&& forall|i: int, j: int|
                0 <= i < j < report.len() ==> (#[trigger] report[i]).0 < (#[trigger] report[j]).0
            &&& order.len() > 0 ==> forall|i: int|
                0 <= i < report.len() ==> (#[trigger] report[i]).0 <= order.last()
            &&& order.len() == 0 ==> report.len() == 0
        }),
    decreases order.len(),
{
    if order.len() > 0 {
        let shorter = order.drop_last();
        assert(rises(shorter)) by {
            assert forall|i: int, j: int| 0 <= i < j < shorter.len() implies shorter[i]
                < shorter[j] by {
                assert(order[i] < order[j]);
            }
        }
        lemma_revised_rises(shorter, edges, base, priors, val);
        let before = revised(shorter, edges, base, priors, val);
        let report = revised(order, edges, base, priors, val);
        if shorter.len() > 0 {
            assert(order[shorter.len() - 1] < order[order.len() - 1]);
            assert(shorter.last() == order[shorter.len() - 1]);
        }
        assert forall|i: int| 0 <= i < before.len() implies (#[trigger] report[i]).0 < order.last()
            && report[i] == before[i] by {
            assert(before[i].0 <= shorter.last());
        }
        assert forall|i: int, j: int| 0 <= i < j < report.len() implies (#[trigger] report[i]).0 < (
        #[trigger] report[j]).0 by {
            if j < before.len() {
                assert(before[i].0 < before[j].0);
            }
        }
    }
}

proof fn lemma_moved_rises(order: Seq<u128>, base: Map<u128, nat>, val: Map<u128, nat>)
    requires
        rises(order),
    ensures
        ({
            let report = moved(order, base, val);
            &&& forall|i: int, j: int|
                0 <= i < j < report.len() ==> (#[trigger] report[i]).0 < (#[trigger] report[j]).0
            &&& order.len() > 0 ==> forall|i: int|
                0 <= i < report.len() ==> (#[trigger] report[i]).0 <= order.last()
            &&& order.len() == 0 ==> report.len() == 0
        }),
    decreases order.len(),
{
    if order.len() > 0 {
        let shorter = order.drop_last();
        assert(rises(shorter)) by {
            assert forall|i: int, j: int| 0 <= i < j < shorter.len() implies shorter[i]
                < shorter[j] by {
                assert(order[i] < order[j]);
            }
        }
        lemma_moved_rises(shorter, base, val);
        let before = moved(shorter, base, val);
        let report = moved(order, base, val);
        if shorter.len() > 0 {
            assert(order[shorter.len() - 1] < order[order.len() - 1]);
            assert(shorter.last() == order[shorter.len() - 1]);
        }
        assert forall|i: int| 0 <= i < before.len() implies (#[trigger] report[i]).0 < order.last()
            && report[i] == before[i] by {
            assert(before[i].0 <= shorter.last());
        }
        assert forall|i: int, j: int| 0 <= i < j < report.len() implies (#[trigger] report[i]).0 < (
        #[trigger] report[j]).0 by {
            if j < before.len() {
                assert(before[i].0 < before[j].0);
            }
        }
    }
}

/// What the edges into a belief that count on one side leave: the product of one minus
/// weight times source.
pub open spec fn left_over(
    edges: Seq<EdgeTuple>,
    to: u128,
    sources: spec_fn(u128) -> bool,
    val: Map<u128, nat>,
    in_favour: bool,
) -> nat {
    edges.filter(|e: EdgeTuple| counts_on_side(e, to, sources, in_favour)).fold_left(
        one(),
        |left: nat, e: EdgeTuple| times(left, complement(times(e.3.units(), val[e.0]))),
    )
}

/// The value of a belief from its own and its edges: one minus what is missing to one,
/// times what the raising edges leave of that, and all times what the defeating edges
/// leave. Without edges it is its own value.
pub open spec fn aggregated(
    own: nat,
    edges: Seq<EdgeTuple>,
    to: u128,
    sources: spec_fn(u128) -> bool,
    val: Map<u128, nat>,
) -> nat {
    if forall|i: int|
        0 <= i < edges.len() ==> (#[trigger] edges[i]).1 != to || !sources(edges[i].0) {
        own
    } else {
        times(
            complement(times(complement(own), left_over(edges, to, sources, val, true))),
            left_over(edges, to, sources, val, false),
        )
    }
}

proof fn lemma_products_by_side(incoming: Seq<EdgeTuple>, val: Map<u128, nat>)
    ensures
        ({
            let shrink = |left: nat, e: EdgeTuple|
                times(left, complement(times(e.3.units(), val[e.0])));
            let pro = |e: EdgeTuple| e.2 == EdgeType::Supports || e.2 == EdgeType::Causes;
            let con = |e: EdgeTuple| e.2 == EdgeType::Defeats;
            &&& support_complement(incoming, val) == incoming.filter(pro).fold_left(one(), shrink)
            &&& defeat_factor(incoming, val) == incoming.filter(con).fold_left(one(), shrink)
        }),
    decreases incoming.len(),
{
    reveal(Seq::filter);
    let pro = |e: EdgeTuple| e.2 == EdgeType::Supports || e.2 == EdgeType::Causes;
    let con = |e: EdgeTuple| e.2 == EdgeType::Defeats;
    if incoming.len() > 0 {
        let shorter = incoming.drop_last();
        lemma_products_by_side(shorter, val);
        let x = shorter.filter(pro);
        let y = shorter.filter(con);
        assert(x.push(incoming.last()).drop_last() =~= x);
        assert(y.push(incoming.last()).drop_last() =~= y);
    }
}

proof fn lemma_side_of_products(
    edges: Seq<EdgeTuple>,
    base: Map<u128, nat>,
    v: u128,
    val: Map<u128, nat>,
    in_favour: bool,
)
    ensures
        ({
            let shrink = |left: nat, e: EdgeTuple|
                times(left, complement(times(e.3.units(), val[e.0])));
            let into = edges.filter(|e: EdgeTuple| e.1 == v && base.contains_key(e.0));
            let pro = |e: EdgeTuple| e.2 == EdgeType::Supports || e.2 == EdgeType::Causes;
            let con = |e: EdgeTuple| e.2 == EdgeType::Defeats;
            left_over(edges, v, |x: u128| base.contains_key(x), val, in_favour) == if in_favour {
                into.filter(pro).fold_left(one(), shrink)
            } else {
                into.filter(con).fold_left(one(), shrink)
            }
        }),
{
    let known = |x: u128| base.contains_key(x);
    let into = |e: EdgeTuple| e.1 == v && base.contains_key(e.0);
    let side = |e: EdgeTuple| counts_on_side(e, v, known, in_favour);
    let pro = |e: EdgeTuple| e.2 == EdgeType::Supports || e.2 == EdgeType::Causes;
    let con = |e: EdgeTuple| e.2 == EdgeType::Defeats;
    lemma_filter_twice(edges, into, pro);
    lemma_filter_twice(edges, into, con);
    if in_favour {
        lemma_filter_same(edges, |e: EdgeTuple| into(e) && pro(e), side);
    } else {
        lemma_filter_same(edges, |e: EdgeTuple| into(e) && con(e), side);
    }
}

/// A sweep gives a belief what all its edges from known sources make of its own value.
pub proof fn law_a_belief_aggregates_all_its_edges(
    own: nat,
    edges: Seq<EdgeTuple>,
    base: Map<u128, nat>,
    v: u128,
    val: Map<u128, nat>,
)
    ensures
        combined(own, edges_into(edges, base, v), val) == aggregated(
            own,
            edges,
            v,
            |x: u128| base.contains_key(x),
            val,
        ),
{
    let known = |x: u128| base.contains_key(x);
    let into = |e: EdgeTuple| e.1 == v && base.contains_key(e.0);
    let incoming = edges_into(edges, base, v);
    law_every_edge_of_a_known_source_counts(edges, base, v);
    lemma_products_by_side(incoming, val);
    lemma_side_of_products(edges, base, v, val, true);
    lemma_side_of_products(edges, base, v, val, false);
    if incoming.len() == 0 {
        assert forall|i: int| 0 <= i < edges.len() implies (#[trigger] edges[i]).1 != v || !known(
            edges[i].0,
        ) by {
            lemma_filter_members(edges, into, edges[i]);
            assert(edges.contains(edges[i]));
        }
    } else {
        lemma_filter_members(edges, into, incoming[0]);
        assert(incoming.contains(incoming[0]));
        let i = choose|i: int| 0 <= i < edges.len() && edges[i] == incoming[0];
        assert(edges[i].1 == v && known(edges[i].0));
    }
}

/// A propagation of probabilities gives every belief downstream what all its edges make
/// of its own probability, from the values of its sources up to the change that is
/// noticed, and reports it with that value exactly when that differs noticeably from
/// its own probability.
pub proof fn law_propagation_reports_what_edges_make_of_beliefs(
    seed_id: u128,
    seed: nat,
    downstream: Seq<Belief>,
    edges: Seq<EdgeTuple>,
    rank: spec_fn(u128) -> nat,
    i: int,
)
    requires
        distinct_ids(downstream),
        is_shallow(downstream, seed_id, edges, rank),
        seed <= one(),
        forall|k: int|
            0 <= k < downstream.len() ==> (#[trigger] downstream[k]).probability.units() <= one(),
        forall|k: int| 0 <= k < edges.len() ==> (#[trigger] edges[k]).3.units() <= one(),
        0 <= i < downstream.len(),
        downstream[i].id != seed_id,
    ensures
        exists|m: Map<u128, nat>|
            #![trigger m.dom()]
            {
                let end = final_values(seed_id, seed, downstream, edges);
                let sources = |x: u128|
                    is_source(Map::<u128, nat>::empty(), seed_id, downstream, x);
                let b = downstream[i];
                &&& forall|x: u128| sources(x) ==> within(#[trigger] m[x], end[x], 0x0100_0000)
                &&& end[seed_id] == seed
                &&& end[b.id] == aggregated(b.probability.units(), edges, b.id, sources, m)
            },
        forall|p: nat| #[trigger]
            propagated(seed_id, seed, downstream, edges).contains((downstream[i].id, p)) <==> {
                let end = final_values(seed_id, seed, downstream, edges);
                &&& p == end[downstream[i].id]
                &&& distance(p, downstream[i].probability.units()) > settled_units()
            },
{
    let base = snapshot(downstream, seed_id, seed);
    let order = ascending(swept_ids(downstream, seed_id));
    let n = MAX_SWEEPS as nat;
    let end = final_values(seed_id, seed, downstream, edges);
    let b = downstream[i];
    lemma_layered(seed_id, downstream, edges, rank);
    lemma_order_rises(downstream, seed_id);
    lemma_visited(downstream, seed_id, b.id);
    lemma_visited(downstream, seed_id, seed_id);
    lemma_belief_value(downstream, b.id);
    lemma_order_in_snapshot(downstream, seed_id, seed, order);
    lemma_values_in_range(downstream);
    assert(are_bounded(base, base)) by {
        assert forall|x: u128| base.contains_key(x) implies #[trigger] base[x] <= one() by {
            if x != seed_id {
                assert(belief_values(downstream)[x] <= one());
            }
        }
    }
    assert forall|j: int| 0 <= j < order.len() implies base.contains_key(#[trigger] order[j]) by {}
    assert(weights_bounded(edges));
    lemma_end_is_explained(order, edges, base, base, n, 0, rank);
    assert(end[seed_id] == base[seed_id]);
    let k = choose|k: int| 0 <= k < order.len() && order[k] == b.id;
    assert(is_explained(edges, base, end, order[k]));
    let m = choose|m: Map<u128, nat>| explains(edges, base, end, b.id, m);
    law_a_belief_aggregates_all_its_edges(base[b.id], edges, base, b.id, m);
    let known = |x: u128| base.contains_key(x);
    let sources = |x: u128| is_source(Map::<u128, nat>::empty(), seed_id, downstream, x);
    assert forall|x: u128| #[trigger] base.contains_key(x) <==> is_source(
        Map::<u128, nat>::empty(),
        seed_id,
        downstream,
        x,
    ) by {
        lemma_belief_value(downstream, x);
    }
    assert(known =~= sources);
    assert forall|x: u128| sources(x) implies within(#[trigger] m[x], end[x], 0x0100_0000) by {
        assert(base.contains_key(x));
    }
    assert(m.dom() == m.dom());
    assert forall|p: nat| #[trigger]
        propagated(seed_id, seed, downstream, edges).contains((b.id, p)) <==> {
            &&& p == end[b.id]
            &&& distance(p, b.probability.units()) > settled_units()
        } by {
        lemma_moved_members(order, base, end, b.id, p);
    }
}

proof fn lemma_moved_members(
    order: Seq<u128>,
    base: Map<u128, nat>,
    val: Map<u128, nat>,
    v: u128,
    p: nat,
)
    ensures
        moved(order, base, val).contains((v, p)) <==> order.contains(v) && p == val[v] && distance(
            val[v],
            base[v],
        ) > settled_units(),
    decreases order.len(),
{
    if order.len() > 0 {
        let shorter = order.drop_last();
        let before = moved(shorter, base, val);
        let all = moved(order, base, val);
        lemma_moved_members(shorter, base, val, v, p);
        assert(order[order.len() - 1] == order.last());
        if before.contains((v, p)) {
            let k = choose|k: int| 0 <= k < before.len() && before[k] == (v, p);
            assert(all[k] == (v, p));
        }
        if shorter.contains(v) {
            let j = choose|j: int| 0 <= j < shorter.len() && shorter[j] == v;
            assert(order[j] == v);
        }
        if order.contains(v) && order.last() != v {
            let j = choose|j: int| 0 <= j < order.len() && order[j] == v;
            assert(shorter[j] == v);
        }
        if all.contains((v, p)) {
            let k = choose|k: int| 0 <= k < all.len() && all[k] == (v, p);
            if k < before.len() {
                assert(before[k] == (v, p));
            }
        }
        if order.last() == v && distance(val[v], base[v]) > settled_units() {
            assert(all[before.len() as int] == (v, val[v]));
        }
    }
}

} // verus!
