//! What holds of every propagation, intervention and decay.
use vstd::arithmetic::power2::*;
use vstd::prelude::*;

use crate::binary64::{complement, one, plus, times, Binary64};
use crate::graph::{attenuated, Belief, EdgeType, MemoryType, Probability};
use crate::inference::{
    active_pairs, belief_values, combined, decayed_confidences, defeat_factor, edges_into, expired,
    expired_targets, moved, propagated, raises, settled_units, snapshot, support_complement,
    surgical, sweep, swept, swept_ids, EdgeTuple, MAX_SWEEPS,
};
use crate::rounding::{
    lemma_representable, lemma_round_at_most, lemma_round_error, lemma_round_exact,
    lemma_round_representable,
};
use crate::sorting::ascending;
use crate::time::Timestamp;

verus! {

/// A propagation reports only downstream beliefs, and never the seed.
pub proof fn law_only_downstream_is_reported(
    seed_id: u128,
    seed: nat,
    downstream: Seq<Belief>,
    edges: Seq<EdgeTuple>,
)
    ensures
        forall|i: int|
            0 <= i < propagated(seed_id, seed, downstream, edges).len() ==> {
                let id = (#[trigger] propagated(seed_id, seed, downstream, edges)[i]).0;
                id != seed_id && exists|k: int|
                    0 <= k < downstream.len() && (#[trigger] downstream[k]).id == id
            },
{
    let base = snapshot(downstream, seed_id, seed);
    let ids = swept_ids(downstream, seed_id);
    let order = ascending(ids);
    let val = swept(order, edges, base, base, MAX_SWEEPS as nat);
    let report = propagated(seed_id, seed, downstream, edges);
    assert forall|i: int| 0 <= i < report.len() implies {
        let id = (#[trigger] report[i]).0;
        id != seed_id && exists|k: int|
            0 <= k < downstream.len() && (#[trigger] downstream[k]).id == id
    } by {
        lemma_moved_in_order(order, base, val, i);
        let id = report[i].0;
        let leq = |a: u128, b: u128| a <= b;
        ids.lemma_sort_by_ensures(leq);
        assert(ids.contains(id));
        lemma_swept_from(downstream, seed_id, id);
    }
}

proof fn lemma_moved_in_order(
    order: Seq<u128>,
    base: Map<u128, nat>,
    val: Map<u128, nat>,
    i: int,
)
    requires
        0 <= i < moved(order, base, val).len(),
    ensures
        order.contains(moved(order, base, val)[i].0),
    decreases order.len(),
{
    if order.len() > 0 {
        let shorter = order.drop_last();
        let before = moved(shorter, base, val);
        if i < before.len() {
            lemma_moved_in_order(shorter, base, val, i);
            let k = choose|k: int| 0 <= k < shorter.len() && shorter[k] == before[i].0;
            assert(order[k] == before[i].0);
        } else {
            assert(order[order.len() - 1] == order.last());
        }
    }
}

/// What is swept are the downstream beliefs other than the seed.
pub proof fn lemma_swept_from(downstream: Seq<Belief>, seed_id: u128, id: u128)
    ensures
        swept_ids(downstream, seed_id).contains(id) <==> id != seed_id && exists|k: int|
            0 <= k < downstream.len() && (#[trigger] downstream[k]).id == id,
    decreases downstream.len(),
{
    if downstream.len() > 0 {
        let shorter = downstream.drop_last();
        let before = swept_ids(shorter, seed_id);
        lemma_swept_from(shorter, seed_id, id);
        let all = swept_ids(downstream, seed_id);
        if before.contains(id) {
            let k = choose|k: int| 0 <= k < before.len() && before[k] == id;
            assert(all[k] == id);
            let m = choose|m: int| 0 <= m < shorter.len() && (#[trigger] shorter[m]).id == id;
            assert(downstream[m].id == id);
        }
        if id != seed_id && downstream.last().id == id {
            assert(all[all.len() - 1] == id);
            assert(downstream[downstream.len() - 1].id == id);
        }
        if all.contains(id) && !before.contains(id) {
            let k = choose|k: int| 0 <= k < all.len() && all[k] == id;
            assert(k == all.len() - 1);
            assert(downstream[downstream.len() - 1].id == id);
        }
        if id != seed_id && exists|k: int|
            0 <= k < downstream.len() && (#[trigger] downstream[k]).id == id {
            let k = choose|k: int| 0 <= k < downstream.len() && (#[trigger] downstream[k]).id == id;
            if k < shorter.len() {
                assert(shorter[k].id == id);
            }
        }
    }
}

/// No two beliefs of the list share an identifier.
pub open spec fn distinct_ids(beliefs: Seq<Belief>) -> bool {
    forall|i: int, j: int|
        0 <= i < beliefs.len() && 0 <= j < beliefs.len() && i != j ==> (#[trigger] beliefs[i]).id
            != (#[trigger] beliefs[j]).id
}

/// The order in which the downstream beliefs are given does not matter.
pub proof fn law_downstream_order_is_irrelevant(
    seed_id: u128,
    seed: nat,
    a: Seq<Belief>,
    b: Seq<Belief>,
    edges: Seq<EdgeTuple>,
)
    requires
        distinct_ids(a),
        distinct_ids(b),
        forall|x: Belief| #[trigger] a.contains(x) <==> b.contains(x),
    ensures
        propagated(seed_id, seed, a, edges) == propagated(seed_id, seed, b, edges),
{
    broadcast use vstd::seq_lib::group_to_multiset_ensures;

    assert forall|k: u128|
        #![trigger belief_values(a).dom().contains(k)]
        #![trigger belief_values(a)[k]]
        belief_values(a).dom().contains(k) == belief_values(b).dom().contains(k) && (
        belief_values(a).dom().contains(k) ==> belief_values(a)[k] == belief_values(b)[k]) by {
        lemma_belief_value(a, k);
        lemma_belief_value(b, k);
        if belief_values(a).contains_key(k) {
            let i = choose|i: int| 0 <= i < a.len() && (#[trigger] a[i]).id == k;
            assert(a.contains(a[i]));
            let j = choose|j: int| 0 <= j < b.len() && b[j] == a[i];
            assert(b[j].id == k);
        }
        if belief_values(b).contains_key(k) {
            let i = choose|i: int| 0 <= i < b.len() && (#[trigger] b[i]).id == k;
            assert(b.contains(b[i]));
            assert(a.contains(b[i]));
            let j = choose|j: int| 0 <= j < a.len() && a[j] == b[i];
            assert(a[j].id == k);
        }
    }
    assert(belief_values(a).dom() =~= belief_values(b).dom());
    assert(belief_values(a) =~= belief_values(b));
    let x = swept_ids(a, seed_id);
    let y = swept_ids(b, seed_id);
    lemma_swept_distinct(a, seed_id);
    lemma_swept_distinct(b, seed_id);
    assert(x.to_multiset() =~= y.to_multiset()) by {
        x.lemma_multiset_has_no_duplicates();
        y.lemma_multiset_has_no_duplicates();
        assert forall|id: u128| x.to_multiset().count(id) == y.to_multiset().count(id) by {
            lemma_swept_from(a, seed_id, id);
            lemma_swept_from(b, seed_id, id);
            if x.contains(id) {
                let i = choose|i: int| 0 <= i < a.len() && (#[trigger] a[i]).id == id;
                assert(a.contains(a[i]));
                let j = choose|j: int| 0 <= j < b.len() && b[j] == a[i];
                assert(b[j].id == id);
                assert(y.contains(id));
            }
            if y.contains(id) {
                let i = choose|i: int| 0 <= i < b.len() && (#[trigger] b[i]).id == id;
                assert(b.contains(b[i]));
                assert(a.contains(b[i]));
                let j = choose|j: int| 0 <= j < a.len() && a[j] == b[i];
                assert(a[j].id == id);
                assert(x.contains(id));
            }
            assert(x.contains(id) == y.contains(id));
        }
    }
    let leq = |a: u128, b: u128| a <= b;
    x.lemma_sort_by_ensures(leq);
    y.lemma_sort_by_ensures(leq);
    vstd::seq_lib::lemma_sorted_unique(x.sort_by(leq), y.sort_by(leq), leq);
}

/// Beliefs with different identifiers are visited once each.
pub proof fn lemma_swept_distinct(beliefs: Seq<Belief>, seed_id: u128)
    requires
        distinct_ids(beliefs),
    ensures
        swept_ids(beliefs, seed_id).no_duplicates(),
    decreases beliefs.len(),
{
    if beliefs.len() > 0 {
        let shorter = beliefs.drop_last();
        assert(distinct_ids(shorter)) by {
            assert forall|i: int, j: int|
                0 <= i < shorter.len() && 0 <= j < shorter.len() && i
                    != j implies (#[trigger] shorter[i]).id != (#[trigger] shorter[j]).id by {
                assert(beliefs[i].id != beliefs[j].id);
            }
        }
        lemma_swept_distinct(shorter, seed_id);
        lemma_swept_from(shorter, seed_id, beliefs.last().id);
        if swept_ids(shorter, seed_id).contains(beliefs.last().id) {
            let k = choose|k: int|
                0 <= k < shorter.len() && (#[trigger] shorter[k]).id == beliefs.last().id;
            assert(beliefs[k].id != beliefs[beliefs.len() - 1].id);
        }
    }
}

/// Beliefs with different identifiers have their own values.
pub proof fn lemma_belief_value(beliefs: Seq<Belief>, k: u128)
    requires
        distinct_ids(beliefs),
    ensures
        belief_values(beliefs).contains_key(k) <==> exists|i: int|
            0 <= i < beliefs.len() && (#[trigger] beliefs[i]).id == k,
        forall|i: int|
            0 <= i < beliefs.len() && (#[trigger] beliefs[i]).id == k ==> belief_values(beliefs)[k]
                == beliefs[i].probability.units(),
    decreases beliefs.len(),
{
    if beliefs.len() > 0 {
        let shorter = beliefs.drop_last();
        assert(distinct_ids(shorter)) by {
            assert forall|i: int, j: int|
                0 <= i < shorter.len() && 0 <= j < shorter.len() && i
                    != j implies (#[trigger] shorter[i]).id != (#[trigger] shorter[j]).id by {
                assert(beliefs[i].id != beliefs[j].id);
            }
        }
        lemma_belief_value(shorter, k);
        assert(beliefs[beliefs.len() - 1] == beliefs.last());
        if belief_values(shorter).contains_key(k) {
            let i = choose|i: int| 0 <= i < shorter.len() && (#[trigger] shorter[i]).id == k;
            assert(beliefs[i].id == k);
        }
        assert forall|i: int|
            0 <= i < beliefs.len() && (#[trigger] beliefs[i]).id == k implies belief_values(
            beliefs,
        )[k] == beliefs[i].probability.units() && belief_values(beliefs).contains_key(k) by {
            if i < shorter.len() {
                assert(shorter[i].id == k);
                assert(beliefs[i].id != beliefs[beliefs.len() - 1].id);
            }
        }
    }
}

/// The edges of a list that raise their target.
pub open spec fn raising_edges(incoming: Seq<EdgeTuple>) -> Seq<EdgeTuple>
    decreases incoming.len(),
{
    if incoming.len() == 0 {
        Seq::empty()
    } else if raises(incoming.last().2) {
        raising_edges(incoming.drop_last()).push(incoming.last())
    } else {
        raising_edges(incoming.drop_last())
    }
}

/// The edges of a list that defeat their target.
pub open spec fn defeating_edges(incoming: Seq<EdgeTuple>) -> Seq<EdgeTuple>
    decreases incoming.len(),
{
    if incoming.len() == 0 {
        Seq::empty()
    } else if incoming.last().2 == EdgeType::Defeats {
        defeating_edges(incoming.drop_last()).push(incoming.last())
    } else {
        defeating_edges(incoming.drop_last())
    }
}

/// The same edges in the same order; two of them may be swapped.
pub open spec fn same_factors(a: Seq<EdgeTuple>, b: Seq<EdgeTuple>) -> bool {
    a == b || (a.len() == 2 && b.len() == 2 && a[0] == b[1] && a[1] == b[0])
}

/// The order of the edges does not matter: neither how edges of different
/// targets or of different effect are interleaved, nor the order of two edges of
/// the same effect. (A product of three factors is rounded twice, so that there
/// the order may show in its last bit.)
pub proof fn law_edge_order_is_irrelevant(
    seed_id: u128,
    seed: nat,
    downstream: Seq<Belief>,
    a: Seq<EdgeTuple>,
    b: Seq<EdgeTuple>,
)
    requires
        forall|v: u128|
            #![trigger edges_into(a, snapshot(downstream, seed_id, seed), v)]
            {
                let base = snapshot(downstream, seed_id, seed);
                let x = edges_into(a, base, v);
                let y = edges_into(b, base, v);
                &&& x.len() == 0 <==> y.len() == 0
                &&& same_factors(raising_edges(x), raising_edges(y))
                &&& same_factors(defeating_edges(x), defeating_edges(y))
            },
    ensures
        propagated(seed_id, seed, downstream, a) == propagated(seed_id, seed, downstream, b),
{
    let base = snapshot(downstream, seed_id, seed);
    let order = ascending(swept_ids(downstream, seed_id));
    assert forall|v: u128, val: Map<u128, nat>| #[trigger]
        order.contains(v) implies #[trigger] combined(base[v], edges_into(a, base, v), val)
        == combined(base[v], edges_into(b, base, v), val) by {
        lemma_combined_same(base[v], edges_into(a, base, v), edges_into(b, base, v), val);
    }
    lemma_swept_same(order, a, b, base, base, MAX_SWEEPS as nat);
}

proof fn lemma_products_by_kind(incoming: Seq<EdgeTuple>, val: Map<u128, nat>)
    ensures
        support_complement(incoming, val) == support_complement(raising_edges(incoming), val),
        defeat_factor(incoming, val) == defeat_factor(defeating_edges(incoming), val),
    decreases incoming.len(),
{
    if incoming.len() > 0 {
        let e = incoming.last();
        let shorter = incoming.drop_last();
        lemma_products_by_kind(shorter, val);
        if raises(e.2) {
            assert(raising_edges(incoming).drop_last() =~= raising_edges(shorter));
        }
        if e.2 == EdgeType::Defeats {
            assert(defeating_edges(incoming).drop_last() =~= defeating_edges(shorter));
        }
    }
}

/// One minus what an edge carries over.
pub open spec fn edge_factor(e: EdgeTuple, val: Map<u128, nat>) -> nat {
    complement(times(e.3.units(), val[e.0]))
}

/// A distance is a value of the format, so that multiplying it by one changes
/// nothing.
proof fn lemma_factor_times_one(e: EdgeTuple, val: Map<u128, nat>)
    ensures
        times(one(), edge_factor(e, val)) == edge_factor(e, val),
{
    let x = times(e.3.units(), val[e.0]);
    let gap: nat = if one() >= x {
        (one() - x) as nat
    } else {
        (x - one()) as nat
    };
    crate::rounding::lemma_round_representable(53, gap, 1);
    crate::binary64::lemma_one_units();
    crate::rounding::lemma_round_exact(53, edge_factor(e, val), one());
    vstd::arithmetic::mul::lemma_mul_is_commutative(one() as int, edge_factor(e, val) as int);
}

proof fn lemma_pair_of_edges(a: Seq<EdgeTuple>, val: Map<u128, nat>)
    requires
        a.len() == 2,
    ensures
        raises(a[0].2) && raises(a[1].2) ==> support_complement(a, val) == times(
            edge_factor(a[0], val),
            edge_factor(a[1], val),
        ),
        a[0].2 == EdgeType::Defeats && a[1].2 == EdgeType::Defeats ==> defeat_factor(a, val)
            == times(edge_factor(a[0], val), edge_factor(a[1], val)),
{
    let a1 = a.drop_last();
    let a0 = a1.drop_last();
    assert(a0.len() == 0);
    assert(a.last() == a[1] && a1.last() == a[0]);
    lemma_factor_times_one(a[0], val);
    if raises(a[0].2) && raises(a[1].2) {
        assert(support_complement(a0, val) == one());
        assert(support_complement(a1, val) == times(one(), edge_factor(a[0], val)));
    }
    if a[0].2 == EdgeType::Defeats && a[1].2 == EdgeType::Defeats {
        assert(defeat_factor(a0, val) == one());
        assert(defeat_factor(a1, val) == times(one(), edge_factor(a[0], val)));
    }
}

proof fn lemma_same_factors(a: Seq<EdgeTuple>, b: Seq<EdgeTuple>, val: Map<u128, nat>)
    requires
        same_factors(a, b),
    ensures
        (forall|i: int| 0 <= i < a.len() ==> raises((#[trigger] a[i]).2)) ==> support_complement(
            a,
            val,
        ) == support_complement(b, val),
        (forall|i: int| 0 <= i < a.len() ==> (#[trigger] a[i]).2 == EdgeType::Defeats)
            ==> defeat_factor(a, val) == defeat_factor(b, val),
{
    if a != b {
        lemma_pair_of_edges(a, val);
        lemma_pair_of_edges(b, val);
        vstd::arithmetic::mul::lemma_mul_is_commutative(
            edge_factor(a[0], val) as int,
            edge_factor(a[1], val) as int,
        );
    }
}

proof fn lemma_kinds(incoming: Seq<EdgeTuple>)
    ensures
        forall|i: int|
            0 <= i < raising_edges(incoming).len() ==> raises(
                (#[trigger] raising_edges(incoming)[i]).2,
            ),
        forall|i: int|
            0 <= i < defeating_edges(incoming).len() ==> (#[trigger] defeating_edges(
                incoming,
            )[i]).2 == EdgeType::Defeats,
    decreases incoming.len(),
{
    if incoming.len() > 0 {
        let shorter = incoming.drop_last();
        lemma_kinds(shorter);
        let all = raising_edges(incoming);
        let before = raising_edges(shorter);
        assert forall|i: int| 0 <= i < all.len() implies raises((#[trigger] all[i]).2) by {
            if i < before.len() {
                assert(all[i] == before[i]);
            }
        }
        let all_defeats = defeating_edges(incoming);
        let before_defeats = defeating_edges(shorter);
        assert forall|i: int| 0 <= i < all_defeats.len() implies (#[trigger] all_defeats[i]).2
            == EdgeType::Defeats by {
            if i < before_defeats.len() {
                assert(all_defeats[i] == before_defeats[i]);
            }
        }
    }
}

/// Every node of the order gets the same value from either list of edges, whatever
/// the values of the sources.
spec fn agree_on_all(
    order: Seq<u128>,
    a: Seq<EdgeTuple>,
    b: Seq<EdgeTuple>,
    base: Map<u128, nat>,
) -> bool {
    forall|v: u128, val: Map<u128, nat>| #[trigger]
        order.contains(v) ==> #[trigger] combined(base[v], edges_into(a, base, v), val)
            == combined(base[v], edges_into(b, base, v), val)
}

proof fn lemma_sweep_same(
    order: Seq<u128>,
    a: Seq<EdgeTuple>,
    b: Seq<EdgeTuple>,
    base: Map<u128, nat>,
    val: Map<u128, nat>,
    i: int,
)
    requires
        agree_on_all(order, a, b, base),
    ensures
        sweep(order, a, base, val, i) == sweep(order, b, base, val, i),
    decreases order.len() - i,
{
    if 0 <= i < order.len() {
        let v = order[i];
        assert(order.contains(v));
        let p = combined(base[v], edges_into(a, base, v), val);
        assert(p == combined(base[v], edges_into(b, base, v), val));
        lemma_sweep_same(order, a, b, base, val.insert(v, p), i + 1);
    }
}

/// Edges with the same factors give the same value.
proof fn lemma_combined_same(
    base: nat,
    x: Seq<EdgeTuple>,
    y: Seq<EdgeTuple>,
    val: Map<u128, nat>,
)
    requires
        x.len() == 0 <==> y.len() == 0,
        same_factors(raising_edges(x), raising_edges(y)),
        same_factors(defeating_edges(x), defeating_edges(y)),
    ensures
        combined(base, x, val) == combined(base, y, val),
{
    lemma_products_by_kind(x, val);
    lemma_products_by_kind(y, val);
    lemma_kinds(x);
    lemma_same_factors(raising_edges(x), raising_edges(y), val);
    lemma_same_factors(defeating_edges(x), defeating_edges(y), val);
}

proof fn lemma_swept_same(
    order: Seq<u128>,
    a: Seq<EdgeTuple>,
    b: Seq<EdgeTuple>,
    base: Map<u128, nat>,
    val: Map<u128, nat>,
    n: nat,
)
    requires
        agree_on_all(order, a, b, base),
    ensures
        swept(order, a, base, val, n) == swept(order, b, base, val, n),
    decreases n,
{
    if n > 0 {
        lemma_sweep_same(order, a, b, base, val, 0);
        lemma_swept_same(order, a, b, base, sweep(order, a, base, val, 0).0, (n - 1) as nat);
    }
}

/// The last place of the numbers from zero to one.
pub open spec fn unit_place() -> nat {
    pow2(1021)
}

/// The order of the edges into a belief shows at most in the last places of its
/// value, in each order of any number of edges: two values differ by no more than
/// four of the last places for each edge, and six.
pub proof fn law_edge_order_shows_in_last_places_only(
    base: nat,
    a: Seq<EdgeTuple>,
    b: Seq<EdgeTuple>,
    val: Map<u128, nat>,
)
    requires
        base <= one(),
        a.to_multiset() == b.to_multiset(),
        forall|i: int|
            0 <= i < a.len() ==> (#[trigger] a[i]).3.units() <= one() && val[a[i].0] <= one(),
    ensures
        combined(base, a, val) <= combined(base, b, val) + (4 * a.len() + 6) * unit_place(),
        combined(base, b, val) <= combined(base, a, val) + (4 * a.len() + 6) * unit_place(),
{
    let u = one();
    let h = unit_place();
    let n = a.len();
    broadcast use vstd::seq_lib::group_to_multiset_ensures;
    assert(a.len() == a.to_multiset().len() && b.len() == b.to_multiset().len());
    assert forall|i: int| 0 <= i < b.len() implies (#[trigger] b[i]).3.units() <= one()
        && val[b[i].0] <= one() by {
        assert(b.contains(b[i]));
        assert(b.to_multiset().count(b[i]) > 0);
        assert(a.contains(b[i]));
        let k = choose|k: int| 0 <= k < a.len() && a[k] == b[i];
        assert(a[k].3.units() <= one());
    }
    if n > 0 {
        lemma_products_close(a, b, val, false);
        lemma_products_close(a, b, val, true);
        let c = complement(base);
        let (sa, sb) = (support_complement(a, val), support_complement(b, val));
        let (da, db) = (defeat_factor(a, val), defeat_factor(b, val));
        lemma_unit_complement(base);
        lemma_unit_product(c, sa);
        lemma_unit_product(c, sb);
        let (ta, tb) = (times(c, sa), times(c, sb));
        lemma_scaled_close(c, sa, c, sb, 0, 2 * n);
        lemma_unit_complement(ta);
        lemma_unit_complement(tb);
        let (ra, rb) = (complement(ta), complement(tb));
        lemma_unit_product(ra, da);
        lemma_unit_product(rb, db);
        assert((2 * n + 2) * h == 2 * n * h + 2 * h && (2 * n + 4) * h == 2 * n * h + 4 * h)
            by (nonlinear_arith);
        lemma_scaled_close(ra, da, rb, db, 2 * n + 4, 2 * n);
    }
}

/// Supporting and causing edges do not lower a belief, and defeating edges do not
/// raise it, but for two of the last places.
pub proof fn law_edges_move_a_belief_their_way(
    base: nat,
    incoming: Seq<EdgeTuple>,
    val: Map<u128, nat>,
)
    requires
        base <= one(),
        forall|i: int|
            0 <= i < incoming.len() ==> (#[trigger] incoming[i]).3.units() <= one()
                && val[incoming[i].0] <= one(),
    ensures
        combined(base, incoming, val) <= one(),
        defeating_edges(incoming).len() == 0 ==> base <= combined(base, incoming, val) + 2
            * unit_place(),
        raising_edges(incoming).len() == 0 ==> combined(base, incoming, val) <= base + 2
            * unit_place(),
{
    if incoming.len() > 0 {
        let c = complement(base);
        let s = support_complement(incoming, val);
        let d = defeat_factor(incoming, val);
        let t = times(c, s);
        let r = complement(t);
        lemma_product_close(incoming, val, false);
        lemma_product_close(incoming, val, true);
        assert(rounded_product(incoming, val, false) == s);
        assert(rounded_product(incoming, val, true) == d);
        lemma_unit_complement(base);
        lemma_unit_complement(c);
        lemma_unit_product(c, s);
        lemma_unit_complement(t);
        lemma_unit_product(r, d);
        lemma_products_by_kind(incoming, val);
        lemma_complement_representable(base);
        lemma_complement_representable(t);
        crate::binary64::lemma_one_units();
        if defeating_edges(incoming).len() == 0 {
            assert(d == one());
            lemma_round_exact(53, r, one());
            assert(c * s <= c * one()) by (nonlinear_arith)
                requires
                    s <= one(),
            ;
            lemma_round_at_most(53, c * s, one(), c);
            crate::rounding::lemma_round_monotone(
                53,
                (one() - c) as nat,
                1,
                (one() - t) as nat,
                1,
            );
        }
        if raising_edges(incoming).len() == 0 {
            assert(s == one());
            lemma_round_exact(53, c, one());
            assert(r * d <= r * one()) by (nonlinear_arith)
                requires
                    d <= one(),
            ;
            lemma_round_at_most(53, r * d, one(), r);
        }
    }
}

proof fn lemma_complement_representable(x: nat)
    requires
        x <= one(),
    ensures
        crate::rounding::representable(53, complement(x)),
{
    lemma_round_representable(53, (one() - x) as nat, 1);
}

/// Time passing twice is time passing once: what remains after one part and then
/// another is what remains after their product, but for four of the last places.
pub proof fn law_two_decays_are_one(p: Probability, first: Binary64, second: Binary64, both: Binary64)
    requires
        p.units() <= one(),
        first.in_unit_range(),
        second.in_unit_range(),
        both.in_unit_range(),
        both.units() == times(first.units(), second.units()),
    ensures
        ({
            let twice = attenuated(attenuated(p.units(), first), second);
            let once = attenuated(p.units(), both);
            &&& twice <= once + 4 * unit_place()
            &&& once <= twice + 4 * unit_place()
        }),
{
    let u = one();
    let h = unit_place();
    let q = p.units();
    crate::binary64::lemma_one_units();
    lemma_unit_factor(first);
    lemma_unit_factor(second);
    lemma_unit_factor(both);
    let (x, y, z) = (first.units(), second.units(), both.units());
    lemma_unit_product(q, x);
    lemma_unit_product(x, y);
    let a = times(q, x);
    lemma_unit_product(a, y);
    lemma_unit_product(q, z);
    let (t, o) = (times(a, y), times(q, z));
    lemma_associative_close(q, x, y, a, z, t, o, h, u);
}

/// A factor of that range is a number without sign, up to one.
proof fn lemma_unit_factor(f: Binary64)
    requires
        f.in_unit_range(),
    ensures
        f.units() <= one(),
        !f.is_nan(),
        !f.is_negative(),
        f.is_finite(),
{
    crate::binary64::lemma_one_units();
    crate::binary64::lemma_pattern_weak_order(f.bits, crate::binary64::ONE_BITS);
}

proof fn lemma_associative_close(
    q: nat,
    x: nat,
    y: nat,
    a: nat,
    z: nat,
    t: nat,
    o: nat,
    h: nat,
    u: nat,
)
    requires
        u > 0,
        q <= u,
        y <= u,
        a * u <= q * x + h * u,
        q * x <= a * u + h * u,
        z * u <= x * y + h * u,
        x * y <= z * u + h * u,
        t * u <= a * y + h * u,
        a * y <= t * u + h * u,
        o * u <= q * z + h * u,
        q * z <= o * u + h * u,
    ensures
        t <= o + 4 * h,
        o <= t + 4 * h,
{
    // Both are the exact product of the three, but for two places each.
    let e = q * x * y;
    let hu = h * u;
    assert((a * y) * u <= e + hu * u && e <= (a * y) * u + hu * u) by (nonlinear_arith)
        requires
            e == q * x * y,
            hu == h * u,
            a * u <= q * x + h * u,
            q * x <= a * u + h * u,
            y <= u,
    {
        assert((a * u) * y <= (q * x + hu) * y && (q * x) * y <= (a * u + hu) * y);
        assert((q * x + hu) * y == e + hu * y && (a * u + hu) * y == (a * y) * u + hu * y);
        assert((a * u) * y == (a * y) * u);
        assert(hu * y <= hu * u);
    }
    assert((q * z) * u <= e + hu * u && e <= (q * z) * u + hu * u) by (nonlinear_arith)
        requires
            e == q * x * y,
            hu == h * u,
            z * u <= x * y + h * u,
            x * y <= z * u + h * u,
            q <= u,
    {
        assert(q * (z * u) <= q * (x * y + hu) && q * (x * y) <= q * (z * u + hu));
        assert(q * (x * y + hu) == e + q * hu && q * (z * u + hu) == (q * z) * u + q * hu);
        assert(q * (z * u) == (q * z) * u);
        assert(q * hu <= hu * u);
    }
    assert((t * u) * u <= (a * y) * u + hu * u && (a * y) * u <= (t * u) * u + hu * u && (o * u) * u
        <= (q * z) * u + hu * u && (q * z) * u <= (o * u) * u + hu * u) by (nonlinear_arith)
        requires
            hu == h * u,
            t * u <= a * y + h * u,
            a * y <= t * u + h * u,
            o * u <= q * z + h * u,
            q * z <= o * u + h * u,
    {
        assert((t * u) * u <= (a * y + hu) * u && (a * y) * u <= (t * u + hu) * u);
        assert((o * u) * u <= (q * z + hu) * u && (q * z) * u <= (o * u + hu) * u);
        assert((a * y + hu) * u == (a * y) * u + hu * u && (t * u + hu) * u == (t * u) * u + hu * u);
        assert((q * z + hu) * u == (q * z) * u + hu * u && (o * u + hu) * u == (o * u) * u + hu * u);
    }
    let uu = u * u;
    assert(t <= o + 4 * h && o <= t + 4 * h) by (nonlinear_arith)
        requires
            u > 0,
            uu == u * u,
            hu == h * u,
            (t * u) * u <= (o * u) * u + 4 * (hu * u),
            (o * u) * u <= (t * u) * u + 4 * (hu * u),
    {
        assert(uu > 0);
        assert((t * u) * u == t * uu && (o * u) * u == o * uu && 4 * (hu * u) == (4 * h) * uu);
        assert(t * uu <= (o + 4 * h) * uu && o * uu <= (t + 4 * h) * uu) by {
            assert((o + 4 * h) * uu == o * uu + (4 * h) * uu);
            assert((t + 4 * h) * uu == t * uu + (4 * h) * uu);
        }
    }
}

/// One minus a number up to one, but for rounding.
pub proof fn lemma_unit_complement(x: nat)
    requires
        x <= one(),
    ensures
        complement(x) <= one(),
        complement(x) + x <= one() + unit_place(),
        one() <= complement(x) + x + unit_place(),
{
    crate::binary64::lemma_one_units();
    crate::binary64::lemma_pattern_representable(crate::binary64::ONE_BITS);
    lemma_round_at_most(53, (one() - x) as nat, 1, one());
    crate::rounding::lemma_round_close(53, (one() - x) as nat, 1, 1074);
}

/// The product of two numbers up to one, but for rounding.
pub proof fn lemma_unit_product(x: nat, y: nat)
    requires
        x <= one(),
        y <= one(),
    ensures
        times(x, y) <= one(),
        times(x, y) * one() <= x * y + unit_place() * one(),
        x * y <= times(x, y) * one() + unit_place() * one(),
{
    let u = one();
    crate::binary64::lemma_one_units();
    crate::binary64::lemma_pattern_representable(crate::binary64::ONE_BITS);
    assert(x * y <= u * u) by (nonlinear_arith)
        requires
            x <= u,
            y <= u,
    ;
    lemma_round_at_most(53, x * y, u, u);
    crate::rounding::lemma_round_close(53, x * y, u, 1074);
}

/// Products of numbers that are close to each other are close to each other.
pub proof fn lemma_scaled_close(x: nat, y: nat, v: nat, w: nat, j: nat, k: nat)
    requires
        x <= one(),
        y <= one(),
        v <= one(),
        w <= one(),
        x <= v + j * unit_place(),
        v <= x + j * unit_place(),
        y <= w + k * unit_place(),
        w <= y + k * unit_place(),
    ensures
        times(x, y) <= times(v, w) + (j + k + 2) * unit_place(),
        times(v, w) <= times(x, y) + (j + k + 2) * unit_place(),
{
    let u = one();
    let h = unit_place();
    crate::binary64::lemma_one_units();
    lemma_unit_product(x, y);
    lemma_unit_product(v, w);
    lemma_close_one_way(x, y, v, w, times(x, y), times(v, w), j * h, k * h, h, u);
    lemma_close_one_way(v, w, x, y, times(v, w), times(x, y), j * h, k * h, h, u);
    assert((j + k + 2) * h == j * h + k * h + 2 * h) by (nonlinear_arith);
}

proof fn lemma_close_one_way(
    x: nat,
    y: nat,
    v: nat,
    w: nat,
    p: nat,
    q: nat,
    dj: nat,
    dk: nat,
    h: nat,
    u: nat,
)
    requires
        u > 0,
        y <= u,
        v <= u,
        x <= v + dj,
        y <= w + dk,
        p * u <= x * y + h * u,
        v * w <= q * u + h * u,
    ensures
        p <= q + dj + dk + 2 * h,
{
    assert(x * y <= v * y + dj * u) by (nonlinear_arith)
        requires
            x <= v + dj,
            y <= u,
    {
        assert(x * y <= (v + dj) * y);
        assert((v + dj) * y == v * y + dj * y);
        assert(dj * y <= dj * u);
    }
    assert(v * y <= v * w + dk * u) by (nonlinear_arith)
        requires
            y <= w + dk,
            v <= u,
    {
        assert(v * y <= v * (w + dk));
        assert(v * (w + dk) == v * w + v * dk);
        assert(v * dk <= dk * u);
    }
    assert(p <= q + dj + dk + 2 * h) by (nonlinear_arith)
        requires
            u > 0,
            p * u <= q * u + dj * u + dk * u + 2 * (h * u),
    {
        assert((q + dj + dk + 2 * h) * u == q * u + dj * u + dk * u + 2 * (h * u));
    }
}

/// The product that an edge takes part in: that of the defeating edges, or that of
/// the raising ones.
pub open spec fn takes_part(e: EdgeTuple, defeats: bool) -> bool {
    if defeats {
        e.2 == EdgeType::Defeats
    } else {
        raises(e.2)
    }
}

pub open spec fn rounded_product(incoming: Seq<EdgeTuple>, val: Map<u128, nat>, defeats: bool) -> nat {
    if defeats {
        defeat_factor(incoming, val)
    } else {
        support_complement(incoming, val)
    }
}

/// Multiplies by the factor of an edge, without rounding.
pub open spec fn exact_step(val: Map<u128, nat>, defeats: bool) -> spec_fn(nat, EdgeTuple) -> nat {
    |acc: nat, e: EdgeTuple|
        acc * (if takes_part(e, defeats) {
            edge_factor(e, val)
        } else {
            one()
        })
}

pub open spec fn one_to_the(n: nat) -> nat
    decreases n,
{
    if n == 0 {
        1
    } else {
        one() * one_to_the((n - 1) as nat)
    }
}

/// The rounded product of factors is the exact one, but for one last place for each
/// factor.
pub proof fn lemma_product_close(incoming: Seq<EdgeTuple>, val: Map<u128, nat>, defeats: bool)
    requires
        forall|i: int|
            0 <= i < incoming.len() ==> (#[trigger] incoming[i]).3.units() <= one()
                && val[incoming[i].0] <= one(),
    ensures
        ({
            let p = rounded_product(incoming, val, defeats);
            let x = incoming.fold_left(1nat, exact_step(val, defeats));
            let scale = one_to_the(incoming.len());
            &&& p <= one()
            &&& scale > 0
            &&& p * scale <= x * one() + incoming.len() * unit_place() * scale
            &&& x * one() <= p * scale + incoming.len() * unit_place() * scale
        }),
    decreases incoming.len(),
{
    let u = one();
    let h = unit_place();
    crate::binary64::lemma_one_units();
    let p = rounded_product(incoming, val, defeats);
    let step = exact_step(val, defeats);
    let x = incoming.fold_left(1nat, step);
    let n = incoming.len();
    if n > 0 {
        let shorter = incoming.drop_last();
        let e = incoming.last();
        assert(incoming[n - 1] == e);
        assert forall|i: int| 0 <= i < shorter.len() implies (#[trigger] shorter[i]).3.units()
            <= one() && val[shorter[i].0] <= one() by {
            assert(shorter[i] == incoming[i]);
        }
        lemma_product_close(shorter, val, defeats);
        let q = rounded_product(shorter, val, defeats);
        let y = shorter.fold_left(1nat, step);
        let scale = one_to_the((n - 1) as nat);
        let m = (n - 1) as nat;
        let f: nat = if takes_part(e, defeats) {
            edge_factor(e, val)
        } else {
            u
        };
        assert(x == y * f);
        if takes_part(e, defeats) {
            lemma_unit_product(e.3.units(), val[e.0]);
            lemma_unit_complement(times(e.3.units(), val[e.0]));
            lemma_unit_product(q, f);
            assert(p == times(q, f));
        } else {
            assert(p == q);
            assert(p * u == q * f);
        }
        lemma_product_step(p, q, f, y, m, h, u, scale);
    } else {
        assert(1 * u == u && u * 1 == u);
    }
}

proof fn lemma_product_step(
    p: nat,
    q: nat,
    f: nat,
    y: nat,
    m: nat,
    h: nat,
    u: nat,
    scale: nat,
)
    requires
        u > 0,
        scale > 0,
        f <= u,
        p * u <= q * f + h * u,
        q * f <= p * u + h * u,
        q * scale <= y * u + m * h * scale,
        y * u <= q * scale + m * h * scale,
    ensures
        u * scale > 0,
        p * (u * scale) <= (y * f) * u + (m + 1) * h * (u * scale),
        (y * f) * u <= p * (u * scale) + (m + 1) * h * (u * scale),
{
    assert(u * scale > 0) by (nonlinear_arith)
        requires
            u > 0,
            scale > 0,
    ;
    let e = m * h * scale;
    assert(e * f <= m * h * (u * scale)) by (nonlinear_arith)
        requires
            e == m * h * scale,
            f <= u,
    {
        assert(e * f <= e * u);
        assert(e * u == m * h * (u * scale));
    }
    assert((m + 1) * h * (u * scale) == m * h * (u * scale) + h * (u * scale)) by (nonlinear_arith);
    assert(p * (u * scale) <= (q * f) * scale + h * (u * scale) && (q * f) * scale <= p * (u
        * scale) + h * (u * scale)) by (nonlinear_arith)
        requires
            p * u <= q * f + h * u,
            q * f <= p * u + h * u,
    {
        assert((p * u) * scale == p * (u * scale) && (h * u) * scale == h * (u * scale));
        assert((p * u) * scale <= (q * f + h * u) * scale);
        assert((q * f) * scale <= (p * u + h * u) * scale);
        assert((q * f + h * u) * scale == (q * f) * scale + (h * u) * scale);
        assert((p * u + h * u) * scale == (p * u) * scale + (h * u) * scale);
    }
    assert((q * f) * scale <= (y * f) * u + e * f && (y * f) * u <= (q * f) * scale + e * f)
        by (nonlinear_arith)
        requires
            q * scale <= y * u + e,
            y * u <= q * scale + e,
    {
        assert((q * f) * scale == (q * scale) * f && (y * f) * u == (y * u) * f);
        assert((q * scale) * f <= (y * u + e) * f && (y * u) * f <= (q * scale + e) * f);
        assert((y * u + e) * f == (y * u) * f + e * f);
        assert((q * scale + e) * f == (q * scale) * f + e * f);
    }
}

/// Products of the same factors in another order are close to each other.
proof fn lemma_products_close(
    a: Seq<EdgeTuple>,
    b: Seq<EdgeTuple>,
    val: Map<u128, nat>,
    defeats: bool,
)
    requires
        a.to_multiset() == b.to_multiset(),
        a.len() == b.len(),
        forall|i: int|
            0 <= i < a.len() ==> (#[trigger] a[i]).3.units() <= one() && val[a[i].0] <= one(),
        forall|i: int|
            0 <= i < b.len() ==> (#[trigger] b[i]).3.units() <= one() && val[b[i].0] <= one(),
    ensures
        rounded_product(a, val, defeats) <= one(),
        rounded_product(b, val, defeats) <= one(),
        rounded_product(a, val, defeats) <= rounded_product(b, val, defeats) + 2 * a.len()
            * unit_place(),
        rounded_product(b, val, defeats) <= rounded_product(a, val, defeats) + 2 * a.len()
            * unit_place(),
{
    let step = exact_step(val, defeats);
    assert forall|x: EdgeTuple, y: EdgeTuple, v: nat| #[trigger]
        step(step(v, x), y) == step(step(v, y), x) by {
        let fx: nat = if takes_part(x, defeats) {
            edge_factor(x, val)
        } else {
            one()
        };
        let fy: nat = if takes_part(y, defeats) {
            edge_factor(y, val)
        } else {
            one()
        };
        assert((v * fx) * fy == (v * fy) * fx) by (nonlinear_arith);
    }
    vstd::seq_lib::lemma_fold_left_permutation(a, b, step, 1nat);
    lemma_product_close(a, val, defeats);
    lemma_product_close(b, val, defeats);
    let p = rounded_product(a, val, defeats);
    let q = rounded_product(b, val, defeats);
    let x = a.fold_left(1nat, step) * one();
    let n = a.len();
    let h = unit_place();
    let scale = one_to_the(n);
    assert(p <= q + 2 * n * h && q <= p + 2 * n * h) by (nonlinear_arith)
        requires
            scale > 0,
            p * scale <= x + n * h * scale,
            x <= p * scale + n * h * scale,
            q * scale <= x + n * h * scale,
            x <= q * scale + n * h * scale,
    {
        assert((q + 2 * n * h) * scale == q * scale + 2 * (n * h * scale));
        assert((p + 2 * n * h) * scale == p * scale + 2 * (n * h * scale));
        assert(p * scale <= (q + 2 * n * h) * scale);
        assert(q * scale <= (p + 2 * n * h) * scale);
    }
}

/// Every belief but the seed is visited.
pub proof fn lemma_swept(beliefs: Seq<Belief>, seed_id: u128, v: u128)
    requires
        v != seed_id,
        belief_values(beliefs).contains_key(v),
    ensures
        swept_ids(beliefs, seed_id).contains(v),
    decreases beliefs.len(),
{
    if beliefs.len() > 0 {
        let before = swept_ids(beliefs.drop_last(), seed_id);
        let ids = swept_ids(beliefs, seed_id);
        if beliefs.last().id == v {
            assert(ids[before.len() as int] == v);
        } else {
            lemma_swept(beliefs.drop_last(), seed_id, v);
            let k = choose|k: int| 0 <= k < before.len() && before[k] == v;
            assert(ids[k] == v);
        }
    }
}

/// The edges that have an effect: they do not contradict, lead to a belief other
/// than the seed, and come from a belief or the seed.
pub open spec fn bearing_edges(edges: Seq<EdgeTuple>, seed_id: u128, ids: Seq<u128>) -> Seq<
    EdgeTuple,
>
    decreases edges.len(),
{
    if edges.len() == 0 {
        Seq::empty()
    } else {
        let before = bearing_edges(edges.drop_last(), seed_id, ids);
        let e = edges.last();
        if e.2 != EdgeType::Contradicts && ids.contains(e.1) && (e.0 == seed_id || ids.contains(
            e.0,
        )) {
            before.push(e)
        } else {
            before
        }
    }
}

/// Edges without effect can be left out: contradictions, edges into the seed, and
/// edges that come from outside or lead outside. The exception is a belief that
/// nothing but contradictions leads to, and whose value is not the same when it is
/// taken from one twice.
pub proof fn law_edges_without_effect_change_nothing(
    seed_id: u128,
    seed: nat,
    downstream: Seq<Belief>,
    edges: Seq<EdgeTuple>,
)
    requires
        forall|v: u128| #[trigger]
            swept_ids(downstream, seed_id).contains(v) && edges_into(
                edges,
                snapshot(downstream, seed_id, seed),
                v,
            ).len() > 0 && edges_into(
                bearing_edges(edges, seed_id, swept_ids(downstream, seed_id)),
                snapshot(downstream, seed_id, seed),
                v,
            ).len() == 0 ==> complement(complement(snapshot(downstream, seed_id, seed)[v]))
                == snapshot(downstream, seed_id, seed)[v],
    ensures
        propagated(seed_id, seed, downstream, edges) == propagated(
            seed_id,
            seed,
            downstream,
            bearing_edges(edges, seed_id, swept_ids(downstream, seed_id)),
        ),
{
    let base = snapshot(downstream, seed_id, seed);
    let ids = swept_ids(downstream, seed_id);
    let order = ascending(ids);
    let kept = bearing_edges(edges, seed_id, ids);
    let leq = |a: u128, b: u128| a <= b;
    ids.lemma_sort_by_ensures(leq);
    assert forall|x: u128| base.contains_key(x) <==> #[trigger] ids.contains(x) || x
        == seed_id by {
        if ids.contains(x) {
            lemma_swept_has_value(downstream, seed_id, x);
        }
        if x != seed_id && belief_values(downstream).contains_key(x) {
            lemma_swept(downstream, seed_id, x);
        }
    }
    assert forall|v: u128, val: Map<u128, nat>| #[trigger]
        order.contains(v) implies #[trigger] combined(base[v], edges_into(edges, base, v), val)
        == combined(base[v], edges_into(kept, base, v), val) by {
        let x = edges_into(edges, base, v);
        let y = edges_into(kept, base, v);
        let k = choose|k: int| 0 <= k < order.len() && order[k] == v;
        assert(ids.contains(order[k]));
        lemma_bearing_into(edges, seed_id, ids, base, v);
        if x.len() > 0 && y.len() == 0 {
            lemma_products_by_kind(x, val);
            assert(raising_edges(y).len() == 0 && defeating_edges(y).len() == 0);
            lemma_returned(base[v]);
        } else {
            lemma_combined_same(base[v], x, y, val);
        }
    }
    lemma_swept_same(order, edges, kept, base, base, MAX_SWEEPS as nat);
}

/// Of the edges into a belief, those with an effect are the raising and the
/// defeating ones.
proof fn lemma_bearing_into(
    edges: Seq<EdgeTuple>,
    seed_id: u128,
    ids: Seq<u128>,
    base: Map<u128, nat>,
    v: u128,
)
    requires
        ids.contains(v),
        forall|x: u128| base.contains_key(x) <==> #[trigger] ids.contains(x) || x == seed_id,
    ensures
        ({
            let x = edges_into(edges, base, v);
            let y = edges_into(bearing_edges(edges, seed_id, ids), base, v);
            &&& raising_edges(x) == raising_edges(y)
            &&& defeating_edges(x) == defeating_edges(y)
            &&& y.len() <= x.len()
        }),
    decreases edges.len(),
{
    if edges.len() > 0 {
        let shorter = edges.drop_last();
        let e = edges.last();
        lemma_bearing_into(shorter, seed_id, ids, base, v);
        let kept = bearing_edges(edges, seed_id, ids);
        let before = bearing_edges(shorter, seed_id, ids);
        let x = edges_into(edges, base, v);
        let x0 = edges_into(shorter, base, v);
        let y = edges_into(kept, base, v);
        let y0 = edges_into(before, base, v);
        assert(base.contains_key(e.0) <==> ids.contains(e.0) || e.0 == seed_id);
        if kept.len() > before.len() {
            assert(kept.drop_last() =~= before);
        }
        if x.len() > x0.len() {
            assert(x.drop_last() =~= x0);
        }
        if y.len() > y0.len() {
            assert(y.drop_last() =~= y0);
        }
    }
}

/// Without edges nothing changes.
pub proof fn law_no_edges_no_change(seed_id: u128, seed: nat, downstream: Seq<Belief>)
    ensures
        propagated(seed_id, seed, downstream, Seq::empty()).len() == 0,
{
    let base = snapshot(downstream, seed_id, seed);
    let order = ascending(swept_ids(downstream, seed_id));
    let none = Seq::<EdgeTuple>::empty();
    assert(forall|v: u128| edges_into(none, base, v).len() == 0);
    let leq = |a: u128, b: u128| a <= b;
    let ids = swept_ids(downstream, seed_id);
    ids.lemma_sort_by_ensures(leq);
    assert forall|i: int| 0 <= i < order.len() implies base.contains_key(#[trigger] order[i]) by {
        assert(order.contains(order[i]));
        assert(ids.contains(order[i]));
        lemma_swept_has_value(downstream, seed_id, order[i]);
    }
    lemma_idle_sweep(order, base, 0);
    lemma_unmoved(order, base);
}

pub proof fn lemma_swept_has_value(downstream: Seq<Belief>, seed_id: u128, id: u128)
    requires
        swept_ids(downstream, seed_id).contains(id),
    ensures
        belief_values(downstream).contains_key(id),
    decreases downstream.len(),
{
    if downstream.len() > 0 && swept_ids(downstream.drop_last(), seed_id).contains(id) {
        lemma_swept_has_value(downstream.drop_last(), seed_id, id);
    }
}

proof fn lemma_idle_sweep(order: Seq<u128>, base: Map<u128, nat>, i: int)
    requires
        i >= 0,
        forall|k: int| 0 <= k < order.len() ==> base.contains_key(#[trigger] order[k]),
    ensures
        sweep(order, Seq::empty(), base, base, i).0 == base,
        sweep(order, Seq::empty(), base, base, i).1,
    decreases order.len() - i,
{
    if i < order.len() {
        let v = order[i];
        assert(base.insert(v, base[v]) =~= base);
        lemma_no_distance(base[v]);
        lemma_idle_sweep(order, base, i + 1);
    }
}

proof fn lemma_unmoved(order: Seq<u128>, base: Map<u128, nat>)
    ensures
        moved(order, base, base).len() == 0,
    decreases order.len(),
{
    if order.len() > 0 {
        lemma_no_distance(base[order.last()]);
        lemma_unmoved(order.drop_last(), base);
    }
}

proof fn lemma_no_distance(a: nat)
    ensures
        crate::binary64::distance(a, a) == 0,
        crate::inference::settled_units() > 0,
{
    crate::rounding::lemma_round_zero(53, 1);
    crate::inference::lemma_settled_pattern();
    crate::binary64::lemma_pattern_order(0, crate::inference::SETTLED_BITS);
}

/// An intervention does not look at edges into its target, nor at edges that
/// support, defeat or contradict: with or without them it projects the same.
pub proof fn law_intervention_ignores_other_edges(
    target: u128,
    value: nat,
    downstream: Seq<Belief>,
    before: Seq<EdgeTuple>,
    ignored: EdgeTuple,
    after: Seq<EdgeTuple>,
)
    requires
        ignored.1 == target || ignored.2 != EdgeType::Causes,
    ensures
        propagated(target, value, downstream, surgical(before + seq![ignored] + after, target))
            == propagated(target, value, downstream, surgical(before + after, target)),
{
    lemma_surgical_without(target, before, ignored, after);
}

proof fn lemma_surgical_without(
    target: u128,
    before: Seq<EdgeTuple>,
    ignored: EdgeTuple,
    after: Seq<EdgeTuple>,
)
    requires
        ignored.1 == target || ignored.2 != EdgeType::Causes,
    ensures
        surgical(before + seq![ignored] + after, target) == surgical(before + after, target),
    decreases after.len(),
{
    let all = before + seq![ignored] + after;
    let without = before + after;
    if after.len() == 0 {
        assert(all.drop_last() =~= before);
        assert(without =~= before);
    } else {
        let shorter = after.drop_last();
        assert(all.drop_last() =~= before + seq![ignored] + shorter);
        assert(without.drop_last() =~= before + shorter);
        lemma_surgical_without(target, before, ignored, shorter);
    }
}

/// What an intervention follows are causing edges that do not lead into its
/// target.
pub proof fn law_surgery_keeps_causes_only(edges: Seq<EdgeTuple>, target: u128)
    ensures
        forall|i: int|
            0 <= i < surgical(edges, target).len() ==> (#[trigger] surgical(edges, target)[i]).2
                == EdgeType::Causes && surgical(edges, target)[i].1 != target,
    decreases edges.len(),
{
    if edges.len() > 0 {
        law_surgery_keeps_causes_only(edges.drop_last(), target);
    }
}

/// Contradiction is mutual.
pub proof fn law_contradiction_is_mutual(a: Probability, b: Probability)
    ensures
        plus(a.units(), b.units()) > one() <==> plus(b.units(), a.units()) > one(),
{
}

/// Of the pairs given, those reported are the ones that contradict, and no others.
pub proof fn law_active_pairs_are_those_that_contradict(
    beliefs: Map<u128, &Belief>,
    pairs: Seq<(u128, u128)>,
    pair: (u128, u128),
)
    ensures
        active_pairs(beliefs, pairs).contains(pair) <==> pairs.contains(pair)
            && beliefs.contains_key(pair.0) && beliefs.contains_key(pair.1) && plus(
            beliefs[pair.0].probability.units(),
            beliefs[pair.1].probability.units(),
        ) > one(),
    decreases pairs.len(),
{
    if pairs.len() > 0 {
        let shorter = pairs.drop_last();
        let before = active_pairs(beliefs, shorter);
        let all = active_pairs(beliefs, pairs);
        law_active_pairs_are_those_that_contradict(beliefs, shorter, pair);
        if before.contains(pair) {
            let k = choose|k: int| 0 <= k < before.len() && before[k] == pair;
            assert(all[k] == pair);
        }
        if shorter.contains(pair) {
            let k = choose|k: int| 0 <= k < shorter.len() && shorter[k] == pair;
            assert(pairs[k] == pair);
        }
        if pairs.last() == pair {
            assert(pairs[pairs.len() - 1] == pair);
            if all.len() > before.len() {
                assert(all[all.len() - 1] == pair);
            }
        }
        if pairs.contains(pair) && !shorter.contains(pair) {
            let k = choose|k: int| 0 <= k < pairs.len() && pairs[k] == pair;
            if k < shorter.len() {
                assert(shorter[k] == pair);
            }
        }
        if all.contains(pair) && !before.contains(pair) {
            let k = choose|k: int| 0 <= k < all.len() && all[k] == pair;
            if k < before.len() {
                assert(before[k] == pair);
            }
        }
    }
}

/// Experiential beliefs do not decay.
pub proof fn law_experience_does_not_decay(beliefs: Seq<Belief>, retained: Seq<Binary64>)
    requires
        beliefs.len() == retained.len(),
        forall|i: int|
            0 <= i < beliefs.len() ==> (#[trigger] beliefs[i]).memory_type
                == MemoryType::Experiential,
    ensures
        decayed_confidences(beliefs, retained).len() == 0,
    decreases beliefs.len(),
{
    if beliefs.len() > 0 {
        assert(beliefs[beliefs.len() - 1] == beliefs.last());
        assert forall|i: int| 0 <= i < beliefs.drop_last().len() implies (
        #[trigger] beliefs.drop_last()[i]).memory_type == MemoryType::Experiential by {
            assert(beliefs[i].memory_type == MemoryType::Experiential);
        }
        law_experience_does_not_decay(beliefs.drop_last(), retained.drop_last());
    }
}

/// A defeated belief is deleted only when its probability has fallen below the
/// threshold and the grace period has passed since each of its defeats; none is
/// named twice.
pub proof fn law_only_expired_beliefs_are_deleted(
    edges: Seq<(u128, u128, Timestamp)>,
    beliefs: Map<u128, &Belief>,
    now: Timestamp,
    threshold: Binary64,
    grace_minutes: int,
    n: int,
)
    requires
        0 <= n <= edges.len(),
    ensures
        ({
            let found = expired_targets(edges, beliefs, now, threshold, grace_minutes, n);
            &&& found.no_duplicates()
            &&& forall|i: int|
                0 <= i < found.len() ==> expired(
                    edges,
                    beliefs,
                    now,
                    threshold,
                    grace_minutes,
                    #[trigger] found[i],
                )
        }),
    decreases n,
{
    if n > 0 {
        law_only_expired_beliefs_are_deleted(edges, beliefs, now, threshold, grace_minutes, n - 1);
    }
}

/// Every expired belief that a defeat names is found.
pub proof fn law_every_expired_belief_is_found(
    edges: Seq<(u128, u128, Timestamp)>,
    beliefs: Map<u128, &Belief>,
    now: Timestamp,
    threshold: Binary64,
    grace_minutes: int,
    n: int,
    i: int,
)
    requires
        0 <= i < n <= edges.len(),
        expired(edges, beliefs, now, threshold, grace_minutes, edges[i].1),
    ensures
        expired_targets(edges, beliefs, now, threshold, grace_minutes, n).contains(edges[i].1),
    decreases n,
{
    let before = expired_targets(edges, beliefs, now, threshold, grace_minutes, n - 1);
    let all = expired_targets(edges, beliefs, now, threshold, grace_minutes, n);
    if i == n - 1 {
        if !before.contains(edges[i].1) {
            assert(all[all.len() - 1] == edges[i].1);
        }
    } else {
        law_every_expired_belief_is_found(
            edges,
            beliefs,
            now,
            threshold,
            grace_minutes,
            n - 1,
            i,
        );
        let k = choose|k: int| 0 <= k < before.len() && before[k] == edges[i].1;
        assert(all[k] == edges[i].1);
    }
}

/// Contradictions are not propagated: where all edges contradict, nothing changes.
pub proof fn law_contradictions_do_not_propagate(
    seed_id: u128,
    seed: nat,
    downstream: Seq<Belief>,
    edges: Seq<EdgeTuple>,
)
    requires
        forall|i: int|
            0 <= i < edges.len() ==> (#[trigger] edges[i]).2 == EdgeType::Contradicts,
        forall|i: int|
            0 <= i < downstream.len() ==> (#[trigger] downstream[i]).probability.units() <= one(),
        seed <= one(),
    ensures
        propagated(seed_id, seed, downstream, edges).len() == 0,
{
    let base = snapshot(downstream, seed_id, seed);
    let order = ascending(swept_ids(downstream, seed_id));
    lemma_values_in_range(downstream);
    assert forall|v: u128| base.contains_key(v) implies #[trigger] base[v] <= one() by {
        if v != seed_id {
            assert(belief_values(downstream)[v] <= one());
        }
    }
    let leq = |a: u128, b: u128| a <= b;
    let ids = swept_ids(downstream, seed_id);
    ids.lemma_sort_by_ensures(leq);
    assert forall|i: int| 0 <= i < order.len() implies base.contains_key(#[trigger] order[i]) by {
        assert(order.contains(order[i]));
        assert(ids.contains(order[i]));
        lemma_swept_has_value(downstream, seed_id, order[i]);
    }
    lemma_contradicting_sweeps(order, edges, base, base, MAX_SWEEPS as nat);
    let val = swept(order, edges, base, base, MAX_SWEEPS as nat);
    lemma_nothing_moved(order, base, val);
}

/// A value taken from one twice, as a node without effective edges is.
spec fn returned(b: nat) -> nat {
    times(complement(times(complement(b), one())), one())
}

/// Multiplying by one changes nothing of it.
proof fn lemma_returned(b: nat)
    ensures
        returned(b) == complement(complement(b)),
{
    lemma_complement_times_one(b);
    lemma_complement_times_one(complement(b));
}

/// A number taken from one is a value of the format, so that multiplying it by one
/// changes nothing.
proof fn lemma_complement_times_one(x: nat)
    ensures
        times(complement(x), one()) == complement(x),
{
    let gap: nat = if one() >= x {
        (one() - x) as nat
    } else {
        (x - one()) as nat
    };
    crate::binary64::lemma_one_units();
    lemma_round_representable(53, gap, 1);
    lemma_round_exact(53, complement(x), one());
}

/// Each value is its base value, or that taken from one twice.
spec fn stays_near(base: Map<u128, nat>, val: Map<u128, nat>) -> bool {
    forall|v: u128| base.contains_key(v) ==> #[trigger] val[v] == base[v] || val[v] == returned(
        base[v],
    )
}

pub proof fn lemma_values_in_range(downstream: Seq<Belief>)
    requires
        forall|i: int|
            0 <= i < downstream.len() ==> (#[trigger] downstream[i]).probability.units() <= one(),
    ensures
        forall|v: u128| belief_values(downstream).contains_key(v) ==> #[trigger] belief_values(
            downstream,
        )[v] <= one(),
    decreases downstream.len(),
{
    if downstream.len() > 0 {
        let shorter = downstream.drop_last();
        assert(downstream[downstream.len() - 1] == downstream.last());
        assert forall|i: int| 0 <= i < shorter.len() implies (
        #[trigger] shorter[i]).probability.units() <= one() by {
            assert(downstream[i].probability.units() <= one());
        }
        lemma_values_in_range(shorter);
        let before = belief_values(shorter);
        let all = belief_values(downstream);
        assert forall|v: u128| all.contains_key(v) implies #[trigger] all[v] <= one() by {
            if v != downstream.last().id {
                assert(before.contains_key(v) && before[v] <= one());
            }
        }
    }
}

proof fn lemma_contradicting_products(
    edges: Seq<EdgeTuple>,
    base: Map<u128, nat>,
    v: u128,
    val: Map<u128, nat>,
)
    requires
        forall|i: int|
            0 <= i < edges.len() ==> (#[trigger] edges[i]).2 == EdgeType::Contradicts,
    ensures
        support_complement(edges_into(edges, base, v), val) == one(),
        defeat_factor(edges_into(edges, base, v), val) == one(),
    decreases edges.len(),
{
    if edges.len() > 0 {
        let shorter = edges.drop_last();
        assert(edges[edges.len() - 1] == edges.last());
        assert forall|i: int| 0 <= i < shorter.len() implies (#[trigger] shorter[i]).2
            == EdgeType::Contradicts by {
            assert(edges[i].2 == EdgeType::Contradicts);
        }
        lemma_contradicting_products(shorter, base, v, val);
        let all = edges_into(edges, base, v);
        let before = edges_into(shorter, base, v);
        if all.len() > before.len() {
            assert(all.drop_last() =~= before);
        }
    }
}

proof fn lemma_contradicting_sweep(
    order: Seq<u128>,
    edges: Seq<EdgeTuple>,
    base: Map<u128, nat>,
    val: Map<u128, nat>,
    i: int,
)
    requires
        i >= 0,
        forall|k: int|
            0 <= k < edges.len() ==> (#[trigger] edges[k]).2 == EdgeType::Contradicts,
        forall|k: int| 0 <= k < order.len() ==> base.contains_key(#[trigger] order[k]),
        stays_near(base, val),
    ensures
        stays_near(base, sweep(order, edges, base, val, i).0),
    decreases order.len() - i,
{
    if i < order.len() {
        let v = order[i];
        lemma_contradicting_products(edges, base, v, val);
        let p = combined(base[v], edges_into(edges, base, v), val);
        assert(p == base[v] || p == returned(base[v]));
        let next = val.insert(v, p);
        assert(stays_near(base, next)) by {
            assert forall|w: u128| base.contains_key(w) implies #[trigger] next[w] == base[w]
                || next[w] == returned(base[w]) by {
                if w != v {
                    assert(val[w] == base[w] || val[w] == returned(base[w]));
                }
            }
        }
        lemma_contradicting_sweep(order, edges, base, next, i + 1);
    }
}

proof fn lemma_contradicting_sweeps(
    order: Seq<u128>,
    edges: Seq<EdgeTuple>,
    base: Map<u128, nat>,
    val: Map<u128, nat>,
    n: nat,
)
    requires
        forall|k: int|
            0 <= k < edges.len() ==> (#[trigger] edges[k]).2 == EdgeType::Contradicts,
        forall|k: int| 0 <= k < order.len() ==> base.contains_key(#[trigger] order[k]),
        stays_near(base, val),
    ensures
        stays_near(base, swept(order, edges, base, val, n)),
    decreases n,
{
    if n > 0 {
        lemma_contradicting_sweep(order, edges, base, val, 0);
        lemma_contradicting_sweeps(
            order,
            edges,
            base,
            sweep(order, edges, base, val, 0).0,
            (n - 1) as nat,
        );
    }
}

/// Taking a number from one twice changes it by far less than what counts as a
/// change.
proof fn lemma_returned_is_near(b: nat)
    requires
        b <= one(),
    ensures
        crate::binary64::distance(b, b) < settled_units(),
        crate::binary64::distance(returned(b), b) < settled_units(),
{
    lemma_no_distance(b);
    lemma2_to64();
    let slack = pow2(1021);
    lemma_pow2_pos(1021);
    let c = complement(b);
    lemma_round_error(53, (one() - b) as nat, 1074);
    crate::binary64::lemma_one_units();
    // A result of rounding is not changed by multiplying it by one.
    lemma_round_representable(53, (one() - b) as nat, 1);
    lemma_round_exact(53, c, one());
    assert(times(c, one()) == c);
    crate::binary64::lemma_pattern_representable(crate::binary64::ONE_BITS);
    lemma_round_at_most(53, (one() - b) as nat, 1, one());
    assert(c <= one());
    let d = complement(c);
    lemma_round_error(53, (one() - c) as nat, 1074);
    lemma_round_representable(53, (one() - c) as nat, 1);
    lemma_round_exact(53, d, one());
    assert(returned(b) == d);
    let gap: nat = if d >= b {
        (d - b) as nat
    } else {
        (b - d) as nat
    };
    assert(gap <= 2 * slack);
    lemma_pow2_unfold(1022);
    assert(1 * pow2(1022) == pow2(1022));
    lemma_representable(53, 1, 1022);
    lemma_round_at_most(53, gap, 1, pow2(1022));
    lemma_settled_is_large();
}

/// What counts as a change is more than `2^-52`.
proof fn lemma_settled_is_large()
    ensures
        pow2(1022) < settled_units(),
{
    lemma2_to64();
    lemma2_to64_rest();
    crate::inference::lemma_settled_pattern();
    let bits: u64 = 0x3CB0_0000_0000_0000;
    assert(0x3CB0_0000_0000_0000nat / 0x0010_0000_0000_0000 == 971);
    assert(0x3CB0_0000_0000_0000nat % 0x0010_0000_0000_0000 == 0);
    lemma_pow2_adds(52, 970);
    crate::binary64::lemma_pattern_order(bits, crate::inference::SETTLED_BITS);
}

proof fn lemma_nothing_moved(order: Seq<u128>, base: Map<u128, nat>, val: Map<u128, nat>)
    requires
        stays_near(base, val),
        forall|k: int| 0 <= k < order.len() ==> base.contains_key(#[trigger] order[k]),
        forall|v: u128| base.contains_key(v) ==> #[trigger] base[v] <= one(),
    ensures
        moved(order, base, val).len() == 0,
    decreases order.len(),
{
    if order.len() > 0 {
        let v = order[order.len() - 1];
        assert(base.contains_key(v));
        assert(val[v] == base[v] || val[v] == returned(base[v]));
        lemma_returned_is_near(base[v]);
        let shorter = order.drop_last();
        assert forall|k: int| 0 <= k < shorter.len() implies base.contains_key(
            #[trigger] shorter[k],
        ) by {
            assert(base.contains_key(order[k]));
        }
        lemma_nothing_moved(shorter, base, val);
    }
}

} // verus!
