//! Weighted reciprocal rank fusion.
use std::collections::HashMap;
use vstd::prelude::*;

use crate::binary32::{
    signed_over_whole, signed_plus, single_from_whole, single_over_whole, single_plus,
    single_units, Binary32, INFINITE_SCORE,
};

verus! {

broadcast use vstd::std_specs::hash::group_hash_axioms;

/// What is added to a rank before it is divided by.
pub const RANK_OFFSET: u32 = 60;

/// What rank `rank` of a list of the given weight contributes, in units:
/// `weight / (60 + rank)`.
pub open spec fn contribution(weight: nat, rank: nat) -> nat {
    single_over_whole(weight, single_from_whole(60 + single_from_whole(rank)))
}

/// The score of `id` after one list, starting from `start`.
pub open spec fn list_score(list: Seq<u128>, weight: nat, id: u128, start: nat) -> nat
    decreases list.len(),
{
    if list.len() == 0 {
        start
    } else {
        let before = list_score(list.drop_last(), weight, id, start);
        if list.last() == id {
            single_plus(before, contribution(weight, (list.len() - 1) as nat))
        } else {
            before
        }
    }
}

/// The score of `id` over all lists: what its ranks contribute, summed.
pub open spec fn fused_score(lists: Seq<(&[u128], Binary32)>, id: u128) -> nat
    decreases lists.len(),
{
    if lists.len() == 0 {
        0
    } else {
        let (list, weight) = lists.last();
        list_score(list@, weight.units(), id, fused_score(lists.drop_last(), id))
    }
}

/// `id` occurs in one of the lists.
pub open spec fn is_ranked(lists: Seq<(&[u128], Binary32)>, id: u128) -> bool {
    exists|i: int| 0 <= i < lists.len() && (#[trigger] lists[i]).0@.contains(id)
}

/// The score of `id` after one list, starting from `start`, where the weight may have a
/// sign; none where it is no number.
pub open spec fn signed_list_score(
    list: Seq<u128>,
    weight: Option<int>,
    id: u128,
    start: Option<int>,
) -> Option<int>
    decreases list.len(),
{
    if list.len() == 0 {
        start
    } else {
        let before = signed_list_score(list.drop_last(), weight, id, start);
        let rank = (list.len() - 1) as nat;
        if list.last() == id {
            signed_plus(
                before,
                signed_over_whole(weight, single_from_whole(60 + single_from_whole(rank))),
            )
        } else {
            before
        }
    }
}

/// The score of `id` over all lists, for weights of any kind.
pub open spec fn signed_score(lists: Seq<(&[u128], Binary32)>, id: u128) -> Option<int>
    decreases lists.len(),
{
    if lists.len() == 0 {
        Some(0)
    } else {
        let (list, weight) = lists.last();
        signed_list_score(list@, weight.value(), id, signed_score(lists.drop_last(), id))
    }
}

/// The weights are finite numbers without sign.
pub open spec fn are_plain(lists: Seq<(&[u128], Binary32)>) -> bool {
    forall|i: int| 0 <= i < lists.len() ==> (#[trigger] lists[i]).1.bits < INFINITE_SCORE
}

/// The scores held in a map are those of `model`, zero where nothing is held; where
/// `plain` says so, they have no sign and are those of `sizes`.
spec fn scores_hold(
    scores: Map<u128, Binary32>,
    model: spec_fn(u128) -> Option<int>,
    sizes: spec_fn(u128) -> nat,
    plain: bool,
) -> bool {
    forall|id: u128|
        #![trigger scores.contains_key(id)]
        #![trigger model(id)]
        #![trigger sizes(id)]
        if scores.contains_key(id) {
            scores[id].value() == model(id) && (plain ==> scores[id].is_number()
                && scores[id].units() == sizes(id))
        } else {
            model(id) == Some(0int) && (plain ==> sizes(id) == 0)
        }
}

/// Sums, for each identifier, what its ranks in the lists contribute.
pub fn weighted_rrf(lists: &[(&[u128], Binary32)]) -> (r: HashMap<u128, Binary32>)
    ensures
        forall|id: u128| #[trigger] r@.contains_key(id) <==> is_ranked(lists@, id),
        forall|id: u128| #[trigger]
            r@.contains_key(id) ==> r@[id].value() == signed_score(lists@, id),
        are_plain(lists@) ==> forall|id: u128| #[trigger]
            r@.contains_key(id) ==> r@[id].is_number() && r@[id].units() == fused_score(
                lists@,
                id,
            ),
{
    let mut scores: HashMap<u128, Binary32> = HashMap::new();
    let n: usize = lists.len();
    let mut i: usize = 0;
    let ghost plain = are_plain(lists@);
    assert(lists@.take(0) =~= Seq::empty());
    while i < n
        invariant
            i <= n,
            n == lists@.len(),
            plain == are_plain(lists@),
            forall|id: u128| #[trigger]
                scores@.contains_key(id) <==> is_ranked(lists@.take(i as int), id),
            scores_hold(
                scores@,
                |id: u128| signed_score(lists@.take(i as int), id),
                |id: u128| fused_score(lists@.take(i as int), id),
                plain,
            ),
        decreases n - i,
    {
        let list = lists[i].0;
        let weight = lists[i].1;
        let ghost shorter = lists@.take(i as int);
        let ghost longer = lists@.take(i + 1);
        let ghost before = scores@;
        proof {
            assert(longer.drop_last() =~= shorter);
            assert(list@.take(0) =~= Seq::empty());
            assert(plain ==> lists@[i as int].1.bits < INFINITE_SCORE);
        }
        let m: usize = list.len();
        let mut rank: usize = 0;
        while rank < m
            invariant
                rank <= m,
                m == list@.len(),
                plain ==> weight.bits < INFINITE_SCORE,
                forall|id: u128| #[trigger]
                    scores@.contains_key(id) <==> before.contains_key(id) || list@.take(
                        rank as int,
                    ).contains(id),
                scores_hold(
                    scores@,
                    |id: u128|
                        signed_list_score(
                            list@.take(rank as int),
                            weight.value(),
                            id,
                            signed_score(shorter, id),
                        ),
                    |id: u128|
                        list_score(
                            list@.take(rank as int),
                            weight.units(),
                            id,
                            fused_score(shorter, id),
                        ),
                    plain,
                ),
            decreases m - rank,
        {
            let id: u128 = list[rank];
            let ghost held = scores@;
            let ghost model = |x: u128|
                signed_list_score(
                    list@.take(rank as int),
                    weight.value(),
                    x,
                    signed_score(shorter, x),
                );
            let ghost sizes = |x: u128|
                list_score(list@.take(rank as int), weight.units(), x, fused_score(shorter, x));
            let ghost next = |x: u128|
                signed_list_score(
                    list@.take(rank + 1),
                    weight.value(),
                    x,
                    signed_score(shorter, x),
                );
            let ghost next_sizes = |x: u128|
                list_score(list@.take(rank + 1), weight.units(), x, fused_score(shorter, x));
            proof {
                assert(list@.take(rank + 1).drop_last() =~= list@.take(rank as int));
                assert(list@.take(rank + 1).last() == id);
                assert(model(id) == model(id) && sizes(id) == sizes(id));
            }
            let start = match scores.get(&id) {
                Some(s) => *s,
                None => Binary32 { bits: 0 },
            };
            proof {
                assert(single_units(0) == 0);
                assert(start.value() == model(id));
                assert(plain ==> start.is_number() && start.units() == sizes(id));
            }
            let share = weight.signed_over_rank(RANK_OFFSET, rank);
            let total = start.signed_sum(share);
            scores.insert(id, total);
            proof {
                assert forall|x: u128|
                    #![trigger scores@.contains_key(x)]
                    #![trigger next(x)]
                    #![trigger next_sizes(x)]
                    if scores@.contains_key(x) {
                        scores@[x].value() == next(x) && (plain ==> scores@[x].is_number()
                            && scores@[x].units() == next_sizes(x))
                    } else {
                        next(x) == Some(0int) && (plain ==> next_sizes(x) == 0)
                    } by {
                    assert(held.contains_key(x) || !held.contains_key(x));
                    assert(model(x) == model(x) && sizes(x) == sizes(x));
                }
                assert forall|x: u128| #[trigger]
                    scores@.contains_key(x) <==> before.contains_key(x) || list@.take(
                        rank + 1,
                    ).contains(x) by {
                    let a = list@.take(rank as int);
                    let b = list@.take(rank + 1);
                    if a.contains(x) {
                        let k = choose|k: int| 0 <= k < a.len() && a[k] == x;
                        assert(b[k] == x);
                    }
                    if x == id {
                        assert(b[rank as int] == x);
                    }
                    if b.contains(x) {
                        let k = choose|k: int| 0 <= k < b.len() && b[k] == x;
                        if k < rank {
                            assert(a[k] == x);
                        }
                    }
                    assert(held.contains_key(x) || !held.contains_key(x));
                }
            }
            rank = rank + 1;
        }
        proof {
            assert(list@.take(m as int) =~= list@);
            let model = |x: u128|
                signed_list_score(
                    list@.take(m as int),
                    weight.value(),
                    x,
                    signed_score(shorter, x),
                );
            let sizes = |x: u128|
                list_score(list@.take(m as int), weight.units(), x, fused_score(shorter, x));
            let next = |x: u128| signed_score(longer, x);
            let next_sizes = |x: u128| fused_score(longer, x);
            assert forall|x: u128|
                #![trigger scores@.contains_key(x)]
                #![trigger next(x)]
                #![trigger next_sizes(x)]
                if scores@.contains_key(x) {
                    scores@[x].value() == next(x) && (plain ==> scores@[x].is_number()
                        && scores@[x].units() == next_sizes(x))
                } else {
                    next(x) == Some(0int) && (plain ==> next_sizes(x) == 0)
                } by {
                assert(model(x) == next(x) && sizes(x) == next_sizes(x));
            }
            assert forall|x: u128| #[trigger]
                scores@.contains_key(x) <==> is_ranked(longer, x) by {
                if is_ranked(shorter, x) {
                    let k = choose|k: int|
                        0 <= k < shorter.len() && (#[trigger] shorter[k]).0@.contains(x);
                    assert(longer[k].0@.contains(x));
                }
                if list@.contains(x) {
                    assert(longer[i as int].0@.contains(x));
                }
                if is_ranked(longer, x) {
                    let k = choose|k: int|
                        0 <= k < longer.len() && (#[trigger] longer[k]).0@.contains(x);
                    if k < i {
                        assert(shorter[k].0@.contains(x));
                    }
                }
                assert(before.contains_key(x) || !before.contains_key(x));
            }
        }
        i = i + 1;
    }
    proof {
        assert(lists@.take(n as int) =~= lists@);
        let model = |x: u128| signed_score(lists@.take(n as int), x);
        let sizes = |x: u128| fused_score(lists@.take(n as int), x);
        assert forall|id: u128| #[trigger] scores@.contains_key(id) implies scores@[id].value()
            == signed_score(lists@, id) && (plain ==> scores@[id].is_number() && scores@[id].units()
            == fused_score(lists@, id)) by {
            assert(model(id) == signed_score(lists@, id) && sizes(id) == fused_score(lists@, id));
        }
    }
    scores
}

/// What is in no list scores nothing.
pub proof fn lemma_unranked_scores_zero(lists: Seq<(&[u128], Binary32)>, id: u128)
    requires
        !is_ranked(lists, id),
    ensures
        fused_score(lists, id) == 0,
    decreases lists.len(),
{
    if lists.len() > 0 {
        let shorter = lists.drop_last();
        if is_ranked(shorter, id) {
            let k = choose|k: int| 0 <= k < shorter.len() && (#[trigger] shorter[k]).0@.contains(id);
            assert(lists[k].0@.contains(id));
        }
        lemma_unranked_scores_zero(shorter, id);
        assert(!lists[lists.len() - 1].0@.contains(id));
        lemma_absent_keeps_score(
            lists.last().0@,
            lists.last().1.units(),
            id,
            fused_score(shorter, id),
        );
    }
}

pub proof fn lemma_absent_keeps_score(list: Seq<u128>, weight: nat, id: u128, start: nat)
    requires
        !list.contains(id),
    ensures
        list_score(list, weight, id, start) == start,
    decreases list.len(),
{
    if list.len() > 0 {
        assert(list[list.len() - 1] == list.last());
        assert(!list.drop_last().contains(id)) by {
            if list.drop_last().contains(id) {
                let k = choose|k: int| 0 <= k < list.len() - 1 && list.drop_last()[k] == id;
                assert(list[k] == id);
            }
        }
        lemma_absent_keeps_score(list.drop_last(), weight, id, start);
    }
}

/// A list without entries does not change any score.
pub proof fn law_empty_list_changes_no_score(
    lists: Seq<(&[u128], Binary32)>,
    empty: (&[u128], Binary32),
    id: u128,
)
    requires
        empty.0@.len() == 0,
    ensures
        fused_score(lists.push(empty), id) == fused_score(lists, id),
{
    assert(lists.push(empty).drop_last() =~= lists);
}

} // verus!
