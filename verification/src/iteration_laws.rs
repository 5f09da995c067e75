//! How propagations proceed, on any graph: in which order beliefs are visited, when it is
//! over, and what is reported.
use vstd::prelude::*;

use crate::binary64::distance;
use crate::graph::{mean_of, Belief};
use crate::inference::{
    belief_values, combined, edges_into, moved, propagated, settled_units, snapshot, sweep, swept,
    swept_ids, EdgeTuple,
};
use crate::posterior::{
    pass, posterior, posterior_mean, posteriors, prior_values, revised, settled_means, start_values,
};
use crate::sorting::ascending;

verus! {

/// The beliefs that a propagation visits are those downstream other than the seed, in the
/// order of their identifiers.
pub proof fn law_beliefs_are_visited_by_identifier(downstream: Seq<Belief>, seed_id: u128)
    ensures
        swept_ids(downstream, seed_id) == downstream.map_values(|b: Belief| b.id).filter(
            |id: u128| id != seed_id,
        ),
        ascending(swept_ids(downstream, seed_id)).to_multiset() == swept_ids(
            downstream,
            seed_id,
        ).to_multiset(),
        forall|i: int, j: int|
            0 <= i < j < ascending(swept_ids(downstream, seed_id)).len() ==> ascending(
                swept_ids(downstream, seed_id),
            )[i] <= ascending(swept_ids(downstream, seed_id))[j],
{
    lemma_swept_ids(downstream, seed_id);
    let ids = swept_ids(downstream, seed_id);
    let leq = |a: u128, b: u128| a <= b;
    ids.lemma_sort_by_ensures(leq);
    let order = ascending(ids);
    assert forall|i: int, j: int| 0 <= i < j < order.len() implies order[i] <= order[j] by {
        assert(leq(order[i], order[j]));
    }
}

proof fn lemma_swept_ids(downstream: Seq<Belief>, seed_id: u128)
    ensures
        swept_ids(downstream, seed_id) == downstream.map_values(|b: Belief| b.id).filter(
            |id: u128| id != seed_id,
        ),
    decreases downstream.len(),
{
    reveal(Seq::filter);
    let f = |b: Belief| b.id;
    let p = |id: u128| id != seed_id;
    let ids = downstream.map_values(f);
    if downstream.len() > 0 {
        let shorter = downstream.drop_last();
        lemma_swept_ids(shorter, seed_id);
        assert(ids.drop_last() =~= shorter.map_values(f));
        assert(ids.last() == downstream.last().id);
    } else {
        assert(ids.filter(p) =~= Seq::empty());
    }
}

/// Every belief starts with its own probability, the seed with the value that it is given,
/// and a source outside with the mean that it is given unless it is one of these.
pub proof fn law_propagations_start_from_what_is_given(
    external: Map<u128, nat>,
    downstream: Seq<Belief>,
    seed_id: u128,
    seed: nat,
    x: u128,
    i: int,
)
    requires
        0 <= i < downstream.len() ==> forall|k: int|
            i < k < downstream.len() ==> (#[trigger] downstream[k]).id != downstream[i].id,
    ensures
        snapshot(downstream, seed_id, seed)[seed_id] == seed,
        start_values(external, downstream, seed_id, seed)[seed_id] == seed,
        0 <= i < downstream.len() && downstream[i].id != seed_id ==> {
            let id = downstream[i].id;
            &&& snapshot(downstream, seed_id, seed).contains_key(id)
            &&& snapshot(downstream, seed_id, seed)[id] == downstream[i].probability.units()
            &&& start_values(external, downstream, seed_id, seed)[id]
                == downstream[i].probability.units()
        },
        0 <= i < downstream.len() ==> prior_values(downstream)[downstream[i].id] == (
            downstream[i].alpha0.units(),
            downstream[i].beta0.units(),
        ),
        x != seed_id && (forall|k: int|
            0 <= k < downstream.len() ==> (#[trigger] downstream[k]).id != x) ==> {
            &&& !snapshot(downstream, seed_id, seed).contains_key(x)
            &&& start_values(external, downstream, seed_id, seed).contains_key(x)
                <==> external.contains_key(x)
            &&& external.contains_key(x) ==> start_values(external, downstream, seed_id, seed)[x]
                == external[x]
        },
{
    if 0 <= i < downstream.len() {
        lemma_last_counts(downstream, i);
    }
    lemma_only_beliefs(downstream, x);
}

proof fn lemma_last_counts(beliefs: Seq<Belief>, i: int)
    requires
        0 <= i < beliefs.len(),
        forall|k: int| i < k < beliefs.len() ==> (#[trigger] beliefs[k]).id != beliefs[i].id,
    ensures
        belief_values(beliefs).contains_key(beliefs[i].id),
        belief_values(beliefs)[beliefs[i].id] == beliefs[i].probability.units(),
        prior_values(beliefs)[beliefs[i].id] == (
            beliefs[i].alpha0.units(),
            beliefs[i].beta0.units(),
        ),
    decreases beliefs.len(),
{
    if i < beliefs.len() - 1 {
        let shorter = beliefs.drop_last();
        assert forall|k: int| i < k < shorter.len() implies (#[trigger] shorter[k]).id
            != shorter[i].id by {
            assert(shorter[k] == beliefs[k]);
        }
        lemma_last_counts(shorter, i);
        assert(beliefs[beliefs.len() - 1].id != beliefs[i].id);
    }
}

proof fn lemma_only_beliefs(beliefs: Seq<Belief>, x: u128)
    ensures
        belief_values(beliefs).contains_key(x) ==> exists|k: int|
            0 <= k < beliefs.len() && (#[trigger] beliefs[k]).id == x,
    decreases beliefs.len(),
{
    if beliefs.len() > 0 {
        let shorter = beliefs.drop_last();
        lemma_only_beliefs(shorter, x);
        if beliefs.last().id == x {
            assert(beliefs[beliefs.len() - 1].id == x);
        } else if belief_values(beliefs).contains_key(x) {
            let k = choose|k: int| 0 <= k < shorter.len() && (#[trigger] shorter[k]).id == x;
            assert(beliefs[k].id == x);
        }
    }
}

/// The values when the first `n` beliefs of a sweep have been visited: each gets what its
/// own value and its edges make of the values as they stand.
#[verifier::opaque]
pub open spec fn after_visits(
    order: Seq<u128>,
    edges: Seq<EdgeTuple>,
    base: Map<u128, nat>,
    val: Map<u128, nat>,
    n: int,
) -> Map<u128, nat> {
    order.take(n).fold_left(
        val,
        |m: Map<u128, nat>, v: u128| m.insert(v, combined(base[v], edges_into(edges, base, v), m)),
    )
}

/// Visit `i` of a sweep moves the value of its belief by less than `10^-9`.
pub open spec fn stays(
    order: Seq<u128>,
    edges: Seq<EdgeTuple>,
    base: Map<u128, nat>,
    val: Map<u128, nat>,
    i: int,
) -> bool {
    distance(
        after_visits(order, edges, base, val, i + 1)[order[i]],
        after_visits(order, edges, base, val, i)[order[i]],
    ) < settled_units()
}

proof fn lemma_visit(
    order: Seq<u128>,
    edges: Seq<EdgeTuple>,
    base: Map<u128, nat>,
    val: Map<u128, nat>,
    n: int,
)
    requires
        0 <= n < order.len(),
    ensures
        after_visits(order, edges, base, val, 0) == val,
        ({
            let now = after_visits(order, edges, base, val, n);
            let v = order[n];
            after_visits(order, edges, base, val, n + 1) == now.insert(
                v,
                combined(base[v], edges_into(edges, base, v), now),
            )
        }),
{
    reveal(after_visits);
    assert(order.take(0) =~= Seq::<u128>::empty());
    assert(order.take(n + 1).drop_last() =~= order.take(n));
    assert(order.take(n + 1).last() == order[n]);
}

/// A sweep visits every belief once, in the given order, and has settled exactly when no
/// visit moved a value by `10^-9` or more.
pub proof fn law_a_sweep_visits_every_belief(
    order: Seq<u128>,
    edges: Seq<EdgeTuple>,
    base: Map<u128, nat>,
    val: Map<u128, nat>,
)
    ensures
        sweep(order, edges, base, val, 0).0 == after_visits(
            order,
            edges,
            base,
            val,
            order.len() as int,
        ),
        sweep(order, edges, base, val, 0).1 <==> forall|i: int|
            0 <= i < order.len() ==> #[trigger] stays(order, edges, base, val, i),
{
    assert(after_visits(order, edges, base, val, 0) == val) by {
        reveal(after_visits);
        assert(order.take(0) =~= Seq::<u128>::empty());
    }
    lemma_visits(order, edges, base, val, 0);
}

proof fn lemma_visits(
    order: Seq<u128>,
    edges: Seq<EdgeTuple>,
    base: Map<u128, nat>,
    val: Map<u128, nat>,
    n: int,
)
    requires
        0 <= n <= order.len(),
    ensures
        ({
            let now = after_visits(order, edges, base, val, n);
            &&& sweep(order, edges, base, now, n).0 == after_visits(
                order,
                edges,
                base,
                val,
                order.len() as int,
            )
            &&& sweep(order, edges, base, now, n).1 <==> forall|i: int|
                n <= i < order.len() ==> #[trigger] stays(order, edges, base, val, i)
        }),
    decreases order.len() - n,
{
    if n < order.len() {
        let now = after_visits(order, edges, base, val, n);
        let v = order[n];
        let p = combined(base[v], edges_into(edges, base, v), now);
        lemma_visit(order, edges, base, val, n);
        lemma_visits(order, edges, base, val, n + 1);
        assert(stays(order, edges, base, val, n) <==> distance(p, now[v]) < settled_units());
    }
}

/// The values after `n` sweeps.
pub open spec fn after_sweeps(
    order: Seq<u128>,
    edges: Seq<EdgeTuple>,
    base: Map<u128, nat>,
    val: Map<u128, nat>,
    n: nat,
) -> Map<u128, nat>
    decreases n,
{
    if n == 0 {
        val
    } else {
        sweep(order, edges, base, after_sweeps(order, edges, base, val, (n - 1) as nat), 0).0
    }
}

proof fn lemma_one_sweep_first(
    order: Seq<u128>,
    edges: Seq<EdgeTuple>,
    base: Map<u128, nat>,
    val: Map<u128, nat>,
    n: nat,
)
    ensures
        after_sweeps(order, edges, base, val, n + 1) == after_sweeps(
            order,
            edges,
            base,
            sweep(order, edges, base, val, 0).0,
            n,
        ),
    decreases n,
{
    reveal_with_fuel(after_sweeps, 2);
    if n > 0 {
        lemma_one_sweep_first(order, edges, base, val, (n - 1) as nat);
    }
}

/// Sweeps are repeated until one has settled, and no more of them are made than the
/// greatest number.
pub proof fn law_sweeps_are_repeated_until_settled(
    order: Seq<u128>,
    edges: Seq<EdgeTuple>,
    base: Map<u128, nat>,
    val: Map<u128, nat>,
    n: nat,
)
    ensures
        exists|k: nat|
            {
                &&& k <= n
                &&& swept(order, edges, base, val, n) == #[trigger] after_sweeps(
                    order,
                    edges,
                    base,
                    val,
                    k,
                )
                &&& forall|j: nat|
                    j + 1 < k ==> !sweep(
                        order,
                        edges,
                        base,
                        #[trigger] after_sweeps(order, edges, base, val, j),
                        0,
                    ).1
                &&& k == n || (k > 0 && sweep(
                    order,
                    edges,
                    base,
                    after_sweeps(order, edges, base, val, (k - 1) as nat),
                    0,
                ).1)
            },
    decreases n,
{
    reveal_with_fuel(after_sweeps, 2);
    if n == 0 {
        assert(after_sweeps(order, edges, base, val, 0) == val);
    } else {
        let (next, settled) = sweep(order, edges, base, val, 0);
        if settled {
            assert(after_sweeps(order, edges, base, val, 1) == next);
        } else {
            law_sweeps_are_repeated_until_settled(order, edges, base, next, (n - 1) as nat);
            let k = choose|k: nat|
                {
                    &&& k <= n - 1
                    &&& swept(order, edges, base, next, (n - 1) as nat) == #[trigger] after_sweeps(
                        order,
                        edges,
                        base,
                        next,
                        k,
                    )
                    &&& forall|j: nat|
                        j + 1 < k ==> !sweep(
                            order,
                            edges,
                            base,
                            #[trigger] after_sweeps(order, edges, base, next, j),
                            0,
                        ).1
                    &&& k == n - 1 || (k > 0 && sweep(
                        order,
                        edges,
                        base,
                        after_sweeps(order, edges, base, next, (k - 1) as nat),
                        0,
                    ).1)
                };
            lemma_one_sweep_first(order, edges, base, val, k);
            assert forall|j: nat| j + 1 < k + 1 implies !sweep(
                order,
                edges,
                base,
                #[trigger] after_sweeps(order, edges, base, val, j),
                0,
            ).1 by {
                if j > 0 {
                    lemma_one_sweep_first(order, edges, base, val, (j - 1) as nat);
                    let before = after_sweeps(order, edges, base, next, (j - 1) as nat);
                    assert(!sweep(order, edges, base, before, 0).1);
                }
            }
            if k > 0 {
                lemma_one_sweep_first(order, edges, base, val, (k - 1) as nat);
            }
            assert(after_sweeps(order, edges, base, val, k + 1) == swept(
                order,
                edges,
                base,
                val,
                n,
            ));
        }
    }
}

/// The means when the first `n` beliefs of a pass have been visited: each gets the mean of
/// the counts that its prior and the means of its sources make, as they stand.
#[verifier::opaque]
pub open spec fn means_after_visits(
    order: Seq<u128>,
    edges: Seq<EdgeTuple>,
    base: Map<u128, nat>,
    priors: Map<u128, (nat, nat)>,
    val: Map<u128, nat>,
    n: int,
) -> Map<u128, nat> {
    order.take(n).fold_left(
        val,
        |m: Map<u128, nat>, v: u128|
            m.insert(
                v,
                mean_of(
                    posterior(priors[v], edges_into(edges, base, v), m).0,
                    posterior(priors[v], edges_into(edges, base, v), m).1,
                ),
            ),
    )
}

/// Visit `i` of a pass leaves the mean of its belief.
pub open spec fn stays_exactly(
    order: Seq<u128>,
    edges: Seq<EdgeTuple>,
    base: Map<u128, nat>,
    priors: Map<u128, (nat, nat)>,
    val: Map<u128, nat>,
    i: int,
) -> bool {
    means_after_visits(order, edges, base, priors, val, i + 1)[order[i]] == means_after_visits(
        order,
        edges,
        base,
        priors,
        val,
        i,
    )[order[i]]
}

proof fn lemma_pass_visit(
    order: Seq<u128>,
    edges: Seq<EdgeTuple>,
    base: Map<u128, nat>,
    priors: Map<u128, (nat, nat)>,
    val: Map<u128, nat>,
    n: int,
)
    requires
        0 <= n < order.len(),
    ensures
        means_after_visits(order, edges, base, priors, val, 0) == val,
        ({
            let now = means_after_visits(order, edges, base, priors, val, n);
            let v = order[n];
            means_after_visits(order, edges, base, priors, val, n + 1) == now.insert(
                v,
                posterior_mean(priors[v], edges_into(edges, base, v), now),
            )
        }),
{
    reveal(means_after_visits);
    assert(order.take(0) =~= Seq::<u128>::empty());
    assert(order.take(n + 1).drop_last() =~= order.take(n));
    assert(order.take(n + 1).last() == order[n]);
}

/// A pass visits every belief once, in the given order, and has settled exactly when no
/// visit moved a mean.
pub proof fn law_a_pass_visits_every_belief(
    order: Seq<u128>,
    edges: Seq<EdgeTuple>,
    base: Map<u128, nat>,
    priors: Map<u128, (nat, nat)>,
    val: Map<u128, nat>,
)
    ensures
        pass(order, edges, base, priors, val, 0).0 == means_after_visits(
            order,
            edges,
            base,
            priors,
            val,
            order.len() as int,
        ),
        pass(order, edges, base, priors, val, 0).1 <==> forall|i: int|
            0 <= i < order.len() ==> #[trigger] stays_exactly(order, edges, base, priors, val, i),
{
    assert(means_after_visits(order, edges, base, priors, val, 0) == val) by {
        reveal(means_after_visits);
        assert(order.take(0) =~= Seq::<u128>::empty());
    }
    lemma_pass_visits(order, edges, base, priors, val, 0);
}

proof fn lemma_pass_visits(
    order: Seq<u128>,
    edges: Seq<EdgeTuple>,
    base: Map<u128, nat>,
    priors: Map<u128, (nat, nat)>,
    val: Map<u128, nat>,
    n: int,
)
    requires
        0 <= n <= order.len(),
    ensures
        ({
            let now = means_after_visits(order, edges, base, priors, val, n);
            &&& pass(order, edges, base, priors, now, n).0 == means_after_visits(
                order,
                edges,
                base,
                priors,
                val,
                order.len() as int,
            )
            &&& pass(order, edges, base, priors, now, n).1 <==> forall|i: int|
                n <= i < order.len() ==> #[trigger] stays_exactly(
                    order,
                    edges,
                    base,
                    priors,
                    val,
                    i,
                )
        }),
    decreases order.len() - n,
{
    if n < order.len() {
        let now = means_after_visits(order, edges, base, priors, val, n);
        let v = order[n];
        let p = posterior_mean(priors[v], edges_into(edges, base, v), now);
        lemma_pass_visit(order, edges, base, priors, val, n);
        lemma_pass_visits(order, edges, base, priors, val, n + 1);
        assert(stays_exactly(order, edges, base, priors, val, n) <==> p == now[v]);
    }
}

/// The means after `n` passes.
pub open spec fn after_passes(
    order: Seq<u128>,
    edges: Seq<EdgeTuple>,
    base: Map<u128, nat>,
    priors: Map<u128, (nat, nat)>,
    val: Map<u128, nat>,
    n: nat,
) -> Map<u128, nat>
    decreases n,
{
    if n == 0 {
        val
    } else {
        pass(
            order,
            edges,
            base,
            priors,
            after_passes(order, edges, base, priors, val, (n - 1) as nat),
            0,
        ).0
    }
}

proof fn lemma_one_pass_first(
    order: Seq<u128>,
    edges: Seq<EdgeTuple>,
    base: Map<u128, nat>,
    priors: Map<u128, (nat, nat)>,
    val: Map<u128, nat>,
    n: nat,
)
    ensures
        after_passes(order, edges, base, priors, val, n + 1) == after_passes(
            order,
            edges,
            base,
            priors,
            pass(order, edges, base, priors, val, 0).0,
            n,
        ),
    decreases n,
{
    reveal_with_fuel(after_passes, 2);
    if n > 0 {
        lemma_one_pass_first(order, edges, base, priors, val, (n - 1) as nat);
    }
}

/// Passes are repeated until one has settled, and no more of them are made than the
/// greatest number.
pub proof fn law_passes_are_repeated_until_settled(
    order: Seq<u128>,
    edges: Seq<EdgeTuple>,
    base: Map<u128, nat>,
    priors: Map<u128, (nat, nat)>,
    val: Map<u128, nat>,
    n: nat,
)
    ensures
        exists|k: nat|
            {
                &&& k <= n
                &&& settled_means(order, edges, base, priors, val, n) == #[trigger] after_passes(
                    order,
                    edges,
                    base,
                    priors,
                    val,
                    k,
                )
                &&& forall|j: nat|
                    j + 1 < k ==> !pass(
                        order,
                        edges,
                        base,
                        priors,
                        #[trigger] after_passes(order, edges, base, priors, val, j),
                        0,
                    ).1
                &&& k == n || (k > 0 && pass(
                    order,
                    edges,
                    base,
                    priors,
                    after_passes(order, edges, base, priors, val, (k - 1) as nat),
                    0,
                ).1)
            },
    decreases n,
{
    reveal_with_fuel(after_passes, 2);
    if n == 0 {
        assert(after_passes(order, edges, base, priors, val, 0) == val);
    } else {
        let (next, settled) = pass(order, edges, base, priors, val, 0);
        if settled {
            assert(after_passes(order, edges, base, priors, val, 1) == next);
        } else {
            law_passes_are_repeated_until_settled(order, edges, base, priors, next, (n - 1) as nat);
            let k = choose|k: nat|
                {
                    &&& k <= n - 1
                    &&& settled_means(order, edges, base, priors, next, (n - 1) as nat)
                        == #[trigger] after_passes(order, edges, base, priors, next, k)
                    &&& forall|j: nat|
                        j + 1 < k ==> !pass(
                            order,
                            edges,
                            base,
                            priors,
                            #[trigger] after_passes(order, edges, base, priors, next, j),
                            0,
                        ).1
                    &&& k == n - 1 || (k > 0 && pass(
                        order,
                        edges,
                        base,
                        priors,
                        after_passes(order, edges, base, priors, next, (k - 1) as nat),
                        0,
                    ).1)
                };
            lemma_one_pass_first(order, edges, base, priors, val, k);
            assert forall|j: nat| j + 1 < k + 1 implies !pass(
                order,
                edges,
                base,
                priors,
                #[trigger] after_passes(order, edges, base, priors, val, j),
                0,
            ).1 by {
                if j > 0 {
                    lemma_one_pass_first(order, edges, base, priors, val, (j - 1) as nat);
                    let before = after_passes(order, edges, base, priors, next, (j - 1) as nat);
                    assert(!pass(order, edges, base, priors, before, 0).1);
                }
            }
            if k > 0 {
                lemma_one_pass_first(order, edges, base, priors, val, (k - 1) as nat);
            }
            assert(after_passes(order, edges, base, priors, val, k + 1) == settled_means(
                order,
                edges,
                base,
                priors,
                val,
                n,
            ));
        }
    }
}

/// A propagation reports, in the order in which it visits them, all beliefs whose value
/// differs from the one they started with by more than `10^-9`, with that value or with
/// the counts that the means entail.
pub proof fn law_every_change_is_reported(
    order: Seq<u128>,
    edges: Seq<EdgeTuple>,
    base: Map<u128, nat>,
    priors: Map<u128, (nat, nat)>,
    val: Map<u128, nat>,
)
    ensures
        moved(order, base, val) == order.filter(
            |v: u128| distance(val[v], base[v]) > settled_units(),
        ).map_values(|v: u128| (v, val[v])),
        revised(order, edges, base, priors, val) == order.filter(
            |v: u128|
                distance(
                    mean_of(
                        posterior(priors[v], edges_into(edges, base, v), val).0,
                        posterior(priors[v], edges_into(edges, base, v), val).1,
                    ),
                    base[v],
                ) > settled_units(),
        ).map_values(|v: u128| (v, posterior(priors[v], edges_into(edges, base, v), val))),
    decreases order.len(),
{
    reveal(Seq::filter);
    let p = |v: u128| distance(val[v], base[v]) > settled_units();
    let f = |v: u128| (v, val[v]);
    let q = |v: u128|
        distance(
            mean_of(
                posterior(priors[v], edges_into(edges, base, v), val).0,
                posterior(priors[v], edges_into(edges, base, v), val).1,
            ),
            base[v],
        ) > settled_units();
    let g = |v: u128| (v, posterior(priors[v], edges_into(edges, base, v), val));
    if order.len() > 0 {
        let shorter = order.drop_last();
        law_every_change_is_reported(shorter, edges, base, priors, val);
        assert(shorter.filter(p).push(order.last()).map_values(f) =~= shorter.filter(p).map_values(
            f,
        ).push(f(order.last())));
        assert(shorter.filter(q).push(order.last()).map_values(g) =~= shorter.filter(q).map_values(
            g,
        ).push(g(order.last())));
    } else {
        assert(order.filter(p).map_values(f) =~= Seq::empty());
        assert(order.filter(q).map_values(g) =~= Seq::empty());
    }
}

/// A propagation reports what at most fifty sweeps or passes over the beliefs downstream
/// make of them.
pub proof fn law_a_propagation_makes_fifty_sweeps_at_most(
    external: Map<u128, nat>,
    seed_id: u128,
    seed: nat,
    downstream: Seq<Belief>,
    edges: Seq<EdgeTuple>,
)
    ensures
        ({
            let base = snapshot(downstream, seed_id, seed);
            let start = start_values(external, downstream, seed_id, seed);
            let order = ascending(swept_ids(downstream, seed_id));
            let priors = prior_values(downstream);
            &&& propagated(seed_id, seed, downstream, edges) == moved(
                order,
                base,
                swept(order, edges, base, base, 50),
            )
            &&& posteriors(external, seed_id, seed, downstream, edges) == revised(
                order,
                edges,
                start,
                priors,
                settled_means(order, edges, start, priors, start, 50),
            )
        }),
{
}

} // verus!
