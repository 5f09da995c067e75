//! What time, defeats and contradictions do to the beliefs that are kept.
use vstd::arithmetic::power2::*;
use vstd::prelude::*;

use crate::binary64::{distance, one, pattern_units, plus, Binary64};
use crate::cli::{ordered_pair, undirected};
use crate::graph::{attenuated, is_count, is_mass, Belief, MemoryType, Probability};
use crate::inference::{
    active_pairs, decayed_confidences, expired, expired_targets, idle, CHANGED_BITS,
};
use crate::posterior::{decayed_count, decayed_counts, grounded_retention, refused_counts};
use crate::sequences::{lemma_list_one_more, lemma_one_more_position, lists_each_once, positions};
use crate::time::{elapsed_nanos, Timestamp};

verus! {

/// A change of a count counts when it exceeds `2^-52`.
pub proof fn law_a_change_in_the_last_place_is_written()
    ensures
        pattern_units(CHANGED_BITS) * pow2(52) == one(),
{
    lemma2_to64();
    lemma2_to64_rest();
    assert(CHANGED_BITS as nat / 0x0010_0000_0000_0000 == 971);
    assert(CHANGED_BITS as nat % 0x0010_0000_0000_0000 == 0);
    lemma_pow2_adds(52, 970);
    lemma_pow2_adds(1022, 52);
}

/// What time leaves of the counts of a belief: of an experiential one all, of any other
/// what decay leaves, the more the greater the mass that grounds it. A belief is written
/// exactly when either count moves by more than `2^-52`, and in the given order. Project,
/// content and probability of a belief have no part in it.
pub proof fn law_time_writes_every_count_that_it_moves(
    beliefs: Seq<Belief>,
    retained: Seq<Probability>,
    masses: Map<u128, Binary64>,
)
    requires
        beliefs.len() == retained.len(),
    ensures
        ({
            let left = |i: int, count: nat|
                decayed_count(
                    count,
                    grounded_retention(
                        retained[i].units(),
                        if masses.contains_key(beliefs[i].id) {
                            masses[beliefs[i].id].units()
                        } else {
                            0
                        },
                    ),
                );
            let moves = |i: int|
                beliefs[i].memory_type != MemoryType::Experiential && (distance(
                    left(i, beliefs[i].alpha.units()),
                    beliefs[i].alpha.units(),
                ) > pattern_units(CHANGED_BITS) || distance(
                    left(i, beliefs[i].beta.units()),
                    beliefs[i].beta.units(),
                ) > pattern_units(CHANGED_BITS));
            decayed_counts(beliefs, retained, masses) == positions(beliefs.len()).filter(
                moves,
            ).map_values(
                |i: int|
                    (
                        beliefs[i].id,
                        (left(i, beliefs[i].alpha.units()), left(i, beliefs[i].beta.units())),
                    ),
            )
        }),
{
    lemma_counts_written(beliefs, retained, masses, beliefs.len());
    assert(beliefs.take(beliefs.len() as int) =~= beliefs);
    assert(retained.take(retained.len() as int) =~= retained);
}

proof fn lemma_counts_written(
    beliefs: Seq<Belief>,
    retained: Seq<Probability>,
    masses: Map<u128, Binary64>,
    n: nat,
)
    requires
        beliefs.len() == retained.len(),
        n <= beliefs.len(),
    ensures
        ({
            let left = |i: int, count: nat|
                decayed_count(
                    count,
                    grounded_retention(
                        retained[i].units(),
                        if masses.contains_key(beliefs[i].id) {
                            masses[beliefs[i].id].units()
                        } else {
                            0
                        },
                    ),
                );
            let moves = |i: int|
                beliefs[i].memory_type != MemoryType::Experiential && (distance(
                    left(i, beliefs[i].alpha.units()),
                    beliefs[i].alpha.units(),
                ) > pattern_units(CHANGED_BITS) || distance(
                    left(i, beliefs[i].beta.units()),
                    beliefs[i].beta.units(),
                ) > pattern_units(CHANGED_BITS));
            decayed_counts(beliefs.take(n as int), retained.take(n as int), masses) == positions(
                n,
            ).filter(moves).map_values(
                |i: int|
                    (
                        beliefs[i].id,
                        (left(i, beliefs[i].alpha.units()), left(i, beliefs[i].beta.units())),
                    ),
            )
        }),
    decreases n,
{
    let left = |i: int, count: nat|
        decayed_count(
            count,
            grounded_retention(
                retained[i].units(),
                if masses.contains_key(beliefs[i].id) {
                    masses[beliefs[i].id].units()
                } else {
                    0
                },
            ),
        );
    let moves = |i: int|
        beliefs[i].memory_type != MemoryType::Experiential && (distance(
            left(i, beliefs[i].alpha.units()),
            beliefs[i].alpha.units(),
        ) > pattern_units(CHANGED_BITS) || distance(
            left(i, beliefs[i].beta.units()),
            beliefs[i].beta.units(),
        ) > pattern_units(CHANGED_BITS));
    let entry = |i: int|
        (
            beliefs[i].id,
            (left(i, beliefs[i].alpha.units()), left(i, beliefs[i].beta.units())),
        );
    if n == 0 {
        reveal(Seq::filter);
        assert(positions(0).filter(moves).map_values(entry) =~= Seq::empty());
    } else {
        let m = (n - 1) as nat;
        lemma_counts_written(beliefs, retained, masses, m);
        lemma_one_more_position(m, moves);
        assert(beliefs.take(n as int).drop_last() =~= beliefs.take(m as int));
        assert(retained.take(n as int).drop_last() =~= retained.take(m as int));
        assert(beliefs.take(n as int).last() == beliefs[m as int]);
        assert(retained.take(n as int).last() == retained[m as int]);
        assert(positions(m).filter(moves).push(m as int).map_values(entry) =~= positions(m).filter(
            moves,
        ).map_values(entry).push(entry(m as int)));
    }
}

/// Aging is refused exactly when a belief that is not experiential has a count that is
/// none, or a mass that is none.
pub proof fn law_only_bad_counts_are_refused(beliefs: Seq<Belief>, masses: Map<u128, Binary64>)
    ensures
        refused_counts(beliefs, masses) is None <==> forall|i: int|
            0 <= i < beliefs.len() ==> (#[trigger] beliefs[i]).memory_type
                == MemoryType::Experiential || (is_count(beliefs[i].alpha) && is_count(
                beliefs[i].beta,
            ) && (masses.contains_key(beliefs[i].id) ==> is_mass(masses[beliefs[i].id]))),
        refused_counts(beliefs, masses) is Some ==> refused_counts(
            beliefs,
            masses,
        )->0 is CountOutOfRange && exists|i: int|
            0 <= i < beliefs.len() && (#[trigger] beliefs[i]).memory_type
                != MemoryType::Experiential && ({
                let v = refused_counts(beliefs, masses)->0->CountOutOfRange_0;
                ||| v == beliefs[i].alpha && !is_count(v)
                ||| v == beliefs[i].beta && !is_count(v)
                ||| masses.contains_key(beliefs[i].id) && v == masses[beliefs[i].id] && !is_mass(v)
            }),
    decreases beliefs.len(),
{
    if beliefs.len() > 0 {
        let shorter = beliefs.drop_last();
        let n = shorter.len() as int;
        law_only_bad_counts_are_refused(shorter, masses);
        assert(beliefs[n] == beliefs.last());
        assert forall|k: int| 0 <= k < n implies #[trigger] beliefs[k] == shorter[k] by {}
        if refused_counts(shorter, masses) is Some {
            let v = refused_counts(shorter, masses)->0->CountOutOfRange_0;
            let i = choose|i: int|
                0 <= i < shorter.len() && (#[trigger] shorter[i]).memory_type
                    != MemoryType::Experiential && ({
                    ||| v == shorter[i].alpha && !is_count(v)
                    ||| v == shorter[i].beta && !is_count(v)
                    ||| masses.contains_key(shorter[i].id) && v == masses[shorter[i].id]
                        && !is_mass(v)
                });
            assert(beliefs[i] == shorter[i]);
        } else {
            assert forall|k: int| 0 <= k < n implies (#[trigger] beliefs[k]).memory_type
                == MemoryType::Experiential || (is_count(beliefs[k].alpha) && is_count(
                beliefs[k].beta,
            ) && (masses.contains_key(beliefs[k].id) ==> is_mass(masses[beliefs[k].id]))) by {
                assert(beliefs[k] == shorter[k]);
            }
        }
    }
}

/// What time leaves of confidences: experiential beliefs keep theirs, of any other the
/// product with the retained part is written where it differs by more than `2^-52`, in
/// the given order.
pub proof fn law_time_writes_every_confidence_that_it_moves(
    beliefs: Seq<Belief>,
    retained: Seq<Binary64>,
)
    requires
        beliefs.len() == retained.len(),
    ensures
        decayed_confidences(beliefs, retained) == positions(beliefs.len()).filter(
            |i: int|
                beliefs[i].memory_type != MemoryType::Experiential && distance(
                    attenuated(beliefs[i].confidence.units(), retained[i]),
                    beliefs[i].confidence.units(),
                ) > pattern_units(CHANGED_BITS),
        ).map_values(
            |i: int| (beliefs[i].id, attenuated(beliefs[i].confidence.units(), retained[i])),
        ),
{
    lemma_confidences_written(beliefs, retained, beliefs.len());
    assert(beliefs.take(beliefs.len() as int) =~= beliefs);
    assert(retained.take(retained.len() as int) =~= retained);
}

proof fn lemma_confidences_written(beliefs: Seq<Belief>, retained: Seq<Binary64>, n: nat)
    requires
        beliefs.len() == retained.len(),
        n <= beliefs.len(),
    ensures
        decayed_confidences(beliefs.take(n as int), retained.take(n as int)) == positions(n).filter(
            |i: int|
                beliefs[i].memory_type != MemoryType::Experiential && distance(
                    attenuated(beliefs[i].confidence.units(), retained[i]),
                    beliefs[i].confidence.units(),
                ) > pattern_units(CHANGED_BITS),
        ).map_values(
            |i: int| (beliefs[i].id, attenuated(beliefs[i].confidence.units(), retained[i])),
        ),
    decreases n,
{
    let moves = |i: int|
        beliefs[i].memory_type != MemoryType::Experiential && distance(
            attenuated(beliefs[i].confidence.units(), retained[i]),
            beliefs[i].confidence.units(),
        ) > pattern_units(CHANGED_BITS);
    let entry = |i: int|
        (beliefs[i].id, attenuated(beliefs[i].confidence.units(), retained[i]));
    if n == 0 {
        reveal(Seq::filter);
        assert(positions(0).filter(moves).map_values(entry) =~= Seq::empty());
    } else {
        let m = (n - 1) as nat;
        lemma_confidences_written(beliefs, retained, m);
        lemma_one_more_position(m, moves);
        assert(beliefs.take(n as int).drop_last() =~= beliefs.take(m as int));
        assert(retained.take(n as int).drop_last() =~= retained.take(m as int));
        assert(beliefs.take(n as int).last() == beliefs[m as int]);
        assert(retained.take(n as int).last() == retained[m as int]);
        assert(positions(m).filter(moves).push(m as int).map_values(entry) =~= positions(m).filter(
            moves,
        ).map_values(entry).push(entry(m as int)));
    }
}

/// The time between two points outside leap seconds is the difference of their seconds
/// and nanoseconds.
pub proof fn law_elapsed_time_is_the_difference(later: Timestamp, earlier: Timestamp)
    requires
        later.subsec_nanos() < 1_000_000_000,
        earlier.subsec_nanos() < 1_000_000_000,
    ensures
        elapsed_nanos(later, earlier) == (later.seconds() - earlier.seconds()) * 1_000_000_000 + (
        later.subsec_nanos() - earlier.subsec_nanos()),
{
}

/// The time from one point to another is the negative of that back. A leap second counts
/// where the later time of day lies after it; otherwise the time is the difference of the
/// seconds and nanoseconds.
pub proof fn law_leap_seconds_count_when_they_lie_between(later: Timestamp, earlier: Timestamp)
    ensures
        elapsed_nanos(later, earlier) == -elapsed_nanos(earlier, later),
        ({
            let seconds = later.seconds() - earlier.seconds();
            let nanos = later.subsec_nanos() - earlier.subsec_nanos();
            let own = later.seconds() as int % 86_400;
            let other = earlier.seconds() as int % 86_400;
            &&& earlier.subsec_nanos() >= 1_000_000_000 && own > other ==> elapsed_nanos(
                later,
                earlier,
            ) == (seconds + 1) * 1_000_000_000 + nanos
            &&& (earlier.subsec_nanos() < 1_000_000_000 || own <= other) && (later.subsec_nanos()
                < 1_000_000_000 || own >= other) ==> elapsed_nanos(later, earlier) == seconds
                * 1_000_000_000 + nanos
        }),
{
}

/// A belief has been idle for the whole seconds since its last activation, and for none
/// where that lies ahead. Nothing but that time has a part in it.
pub proof fn law_idle_time_is_counted_in_whole_seconds(belief: Belief, now: Timestamp)
    ensures
        ({
            let nanos = elapsed_nanos(now, belief.last_activated_at);
            let seconds = idle(belief, now);
            &&& nanos >= 0 ==> seconds * 1_000_000_000 <= nanos < (seconds + 1) * 1_000_000_000
            &&& nanos < 0 ==> seconds == 0
        }),
{
}

/// A defeated belief is found for deletion exactly when it is known, its probability lies
/// below the threshold and every defeat of it is at least as old as the grace period,
/// and each is named once, in the order of their first defeats. Its project and memory
/// type have no part in it.
pub proof fn law_expired_beliefs_are_those_long_defeated(
    edges: Seq<(u128, u128, Timestamp)>,
    beliefs: Map<u128, &Belief>,
    now: Timestamp,
    threshold: Binary64,
    grace_minutes: int,
)
    ensures
        ({
            let found = expired_targets(
                edges,
                beliefs,
                now,
                threshold,
                grace_minutes,
                edges.len() as int,
            );
            let dead = |id: u128|
                {
                    &&& beliefs.contains_key(id)
                    &&& !threshold.is_nan()
                    &&& beliefs[id].probability.units() < threshold.value()
                    &&& forall|i: int|
                        0 <= i < edges.len() && (#[trigger] edges[i]).1 == id ==> elapsed_nanos(
                            now,
                            edges[i].2,
                        ) >= grace_minutes * 60_000_000_000
                };
            lists_each_once(found, edges.map_values(|e: (u128, u128, Timestamp)| e.1).filter(dead))
        }),
{
    let dead = |id: u128|
        {
            &&& beliefs.contains_key(id)
            &&& !threshold.is_nan()
            &&& beliefs[id].probability.units() < threshold.value()
            &&& forall|i: int|
                0 <= i < edges.len() && (#[trigger] edges[i]).1 == id ==> elapsed_nanos(
                    now,
                    edges[i].2,
                ) >= grace_minutes * 60_000_000_000
        };
    lemma_expired_once(edges, beliefs, now, threshold, grace_minutes, edges.len() as int, dead);
    let targets = edges.map_values(|e: (u128, u128, Timestamp)| e.1);
    assert(targets.take(edges.len() as int) =~= targets);
}

proof fn lemma_expired_once(
    edges: Seq<(u128, u128, Timestamp)>,
    beliefs: Map<u128, &Belief>,
    now: Timestamp,
    threshold: Binary64,
    grace_minutes: int,
    n: int,
    dead: spec_fn(u128) -> bool,
)
    requires
        0 <= n <= edges.len(),
        forall|id: u128| #[trigger]
            dead(id) == expired(edges, beliefs, now, threshold, grace_minutes, id),
    ensures
        lists_each_once(
            expired_targets(edges, beliefs, now, threshold, grace_minutes, n),
            edges.map_values(|e: (u128, u128, Timestamp)| e.1).take(n).filter(dead),
        ),
    decreases n,
{
    reveal(Seq::filter);
    let targets = edges.map_values(|e: (u128, u128, Timestamp)| e.1);
    if n > 0 {
        lemma_expired_once(edges, beliefs, now, threshold, grace_minutes, n - 1, dead);
        assert(targets.take(n).drop_last() =~= targets.take(n - 1));
        let before = expired_targets(edges, beliefs, now, threshold, grace_minutes, n - 1);
        let id = edges[n - 1].1;
        assert(targets.take(n).last() == id);
        lemma_list_one_more(before, targets.take(n - 1).filter(dead), id);
    }
}

/// The pairs that are reported as contradictions are those of the given ones of which
/// both beliefs are known and whose probabilities sum to more than one, in the given
/// order and as often as they are given.
pub proof fn law_every_contradiction_is_reported(
    beliefs: Map<u128, &Belief>,
    pairs: Seq<(u128, u128)>,
)
    ensures
        active_pairs(beliefs, pairs) == pairs.filter(
            |pair: (u128, u128)|
                beliefs.contains_key(pair.0) && beliefs.contains_key(pair.1) && plus(
                    beliefs[pair.0].probability.units(),
                    beliefs[pair.1].probability.units(),
                ) > one(),
        ),
    decreases pairs.len(),
{
    reveal(Seq::filter);
    let p = |pair: (u128, u128)|
        beliefs.contains_key(pair.0) && beliefs.contains_key(pair.1) && plus(
            beliefs[pair.0].probability.units(),
            beliefs[pair.1].probability.units(),
        ) > one();
    if pairs.len() > 0 {
        law_every_contradiction_is_reported(beliefs, pairs.drop_last());
    }
    assert(active_pairs(beliefs, pairs) =~= pairs.filter(p));
}

/// Of the given pairs each is shown once, whatever its direction, with the smaller
/// identifier first, in the order in which they come first.
pub proof fn law_pairs_are_shown_once(pairs: Seq<(u128, u128)>)
    ensures
        lists_each_once(
            undirected(pairs),
            pairs.map_values(
                |p: (u128, u128)|
                    if p.0 <= p.1 {
                        p
                    } else {
                        (p.1, p.0)
                    },
            ),
        ),
    decreases pairs.len(),
{
    let turn = |p: (u128, u128)|
        if p.0 <= p.1 {
            p
        } else {
            (p.1, p.0)
        };
    if pairs.len() > 0 {
        let shorter = pairs.drop_last();
        law_pairs_are_shown_once(shorter);
        assert(pairs.map_values(turn) =~= shorter.map_values(turn).push(turn(pairs.last())));
        assert(ordered_pair(pairs.last()) == turn(pairs.last()));
        lemma_list_one_more(undirected(shorter), shorter.map_values(turn), turn(pairs.last()));
    } else {
        assert(pairs.map_values(turn) =~= Seq::empty());
    }
}

} // verus!
