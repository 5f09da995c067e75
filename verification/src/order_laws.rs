//! How far the order in which edges are given can show in a propagation.
use vstd::arithmetic::power2::*;
use vstd::prelude::*;

use crate::binary64::{complement, distance, lemma_pattern_representable, one, times};
use crate::graph::{Belief, EdgeType};
use crate::inference::{
    belief_values, combined, defeat_factor, edges_into, lemma_settled_pattern, moved, propagated,
    settled_units, snapshot, support_complement, sweep, swept, swept_ids, EdgeTuple, MAX_SWEEPS,
    SETTLED_BITS,
};
use crate::inference_laws::{
    distinct_ids, edge_factor, law_edge_order_shows_in_last_places_only,
    law_edges_move_a_belief_their_way, lemma_product_close, lemma_scaled_close,
    lemma_swept_distinct, lemma_swept_has_value, lemma_unit_complement, lemma_unit_product,
    lemma_values_in_range, rounded_product, takes_part, unit_place,
};
use crate::posterior::{layered_by, lemma_edge_into};
use crate::rounding::lemma_round_at_least;
use crate::sorting::ascending;

verus! {

/// Two numbers differ by no more than `k` of the last places.
pub open spec fn within(a: nat, b: nat, k: nat) -> bool {
    a <= b + k * unit_place() && b <= a + k * unit_place()
}

/// Last places that the values which the order of edges gives a belief can differ by,
/// where no more than `width` edges lead to a belief and paths to it visit no more
/// than `depth` beliefs. A change that ends a propagation is below `2^24` of them.
pub open spec fn order_spread(width: nat, depth: nat) -> nat
    decreases depth,
{
    if depth == 0 {
        0
    } else {
        2 * width * (order_spread(width, (depth - 1) as nat) + 0x0200_0000) + 16 * width + 12
    }
}

/// The values of the beliefs at the end of a propagation.
pub open spec fn final_values(
    seed_id: u128,
    seed: nat,
    downstream: Seq<Belief>,
    edges: Seq<EdgeTuple>,
) -> Map<u128, nat> {
    let base = snapshot(downstream, seed_id, seed);
    let order = ascending(swept_ids(downstream, seed_id));
    swept(order, edges, base, base, MAX_SWEEPS as nat)
}

/// What a propagation reports are beliefs with their values at its end.
pub proof fn law_final_values_are_reported(
    seed_id: u128,
    seed: nat,
    downstream: Seq<Belief>,
    edges: Seq<EdgeTuple>,
    i: int,
)
    requires
        0 <= i < propagated(seed_id, seed, downstream, edges).len(),
    ensures
        ({
            let (id, value) = propagated(seed_id, seed, downstream, edges)[i];
            value == final_values(seed_id, seed, downstream, edges)[id]
        }),
{
    let base = snapshot(downstream, seed_id, seed);
    let order = ascending(swept_ids(downstream, seed_id));
    lemma_moved_values(order, base, final_values(seed_id, seed, downstream, edges), i);
}

proof fn lemma_moved_values(order: Seq<u128>, base: Map<u128, nat>, val: Map<u128, nat>, i: int)
    requires
        0 <= i < moved(order, base, val).len(),
    ensures
        moved(order, base, val)[i].1 == val[moved(order, base, val)[i].0],
    decreases order.len(),
{
    if order.len() > 0 && i < moved(order.drop_last(), base, val).len() {
        lemma_moved_values(order.drop_last(), base, val, i);
    }
}

/// The order of the edges shows in the values of a propagation by a bounded number of
/// last places only. The propagating edges between the beliefs form no cycle, as
/// `rank` shows, no path visits more beliefs than there are sweeps, and no more than
/// `width` edges lead to a belief.
pub proof fn law_edge_order_moves_a_propagation_little(
    seed_id: u128,
    seed: nat,
    downstream: Seq<Belief>,
    a: Seq<EdgeTuple>,
    b: Seq<EdgeTuple>,
    width: nat,
    rank: spec_fn(u128) -> nat,
)
    requires
        distinct_ids(downstream),
        seed <= one(),
        forall|i: int|
            0 <= i < downstream.len() ==> (#[trigger] downstream[i]).probability.units() <= one(),
        forall|i: int| 0 <= i < a.len() ==> (#[trigger] a[i]).3.units() <= one(),
        a.to_multiset() == b.to_multiset(),
        layered_by(swept_ids(downstream, seed_id), a, MAX_SWEEPS as nat, rank),
        forall|v: u128| #[trigger]
            swept_ids(downstream, seed_id).contains(v) ==> edges_into(
                a,
                snapshot(downstream, seed_id, seed),
                v,
            ).len() <= width,
    ensures
        forall|v: u128| #[trigger]
            swept_ids(downstream, seed_id).contains(v) ==> within(
                final_values(seed_id, seed, downstream, a)[v],
                final_values(seed_id, seed, downstream, b)[v],
                order_spread(width, rank(v) + 1),
            ),
{
    broadcast use vstd::seq_lib::group_to_multiset_ensures;

    let base = snapshot(downstream, seed_id, seed);
    let ids = swept_ids(downstream, seed_id);
    let order = ascending(ids);
    let n = MAX_SWEEPS as nat;
    let leq = |x: u128, y: u128| x <= y;
    ids.lemma_sort_by_ensures(leq);
    lemma_swept_distinct(downstream, seed_id);
    ids.lemma_multiset_has_no_duplicates();
    order.lemma_multiset_has_no_duplicates_conv();
    assert forall|x: u128| #[trigger] order.contains(x) <==> ids.contains(x) by {
        assert(order.to_multiset() == ids.to_multiset());
        assert(order.contains(x) <==> order.to_multiset().count(x) > 0);
        assert(ids.contains(x) <==> ids.to_multiset().count(x) > 0);
    }
    assert forall|i: int| 0 <= i < order.len() implies rank(#[trigger] order[i]) < n
        && base.contains_key(order[i]) && edges_into(a, base, order[i]).len() <= width by {
        assert(order.contains(order[i]));
        assert(ids.contains(order[i]));
        let k = choose|k: int| 0 <= k < ids.len() && ids[k] == order[i];
        assert(rank(ids[k]) < n);
        lemma_swept_has_value(downstream, seed_id, order[i]);
    }
    assert(layered_by(order, a, n, rank));
    assert forall|k: int| 0 <= k < b.len() implies a.contains(#[trigger] b[k]) by {
        assert(b.contains(b[k]));
        assert(b.to_multiset().count(b[k]) > 0);
    }
    assert(weights_bounded(b)) by {
        assert forall|k: int| 0 <= k < b.len() implies (#[trigger] b[k]).3.units() <= one() by {
            assert(a.contains(b[k]));
            let j = choose|j: int| 0 <= j < a.len() && a[j] == b[k];
            assert(a[j].3.units() <= one());
        }
    }
    assert(layered_by(order, b, n, rank)) by {
        assert forall|k: int|
            0 <= k < b.len() && order.contains((#[trigger] b[k]).0) && order.contains(b[k].1)
                && b[k].2 != EdgeType::Contradicts implies rank(b[k].0) < rank(b[k].1) by {
            assert(a.contains(b[k]));
            let j = choose|j: int| 0 <= j < a.len() && a[j] == b[k];
            assert(rank(a[j].0) < rank(a[j].1));
        }
    }
    lemma_values_in_range(downstream);
    assert(are_bounded(base, base)) by {
        assert forall|x: u128| base.contains_key(x) implies #[trigger] base[x] <= one() by {
            if x != seed_id {
                assert(belief_values(downstream)[x] <= one());
            }
        }
    }
    lemma_end_is_explained(order, a, base, base, n, 0, rank);
    lemma_end_is_explained(order, b, base, base, n, 0, rank);
    let va = final_values(seed_id, seed, downstream, a);
    let vb = final_values(seed_id, seed, downstream, b);
    assert forall|x: u128| !order.contains(x) implies va[x] == #[trigger] vb[x] by {
        assert(base[x] == va[x]);
    }
    assert forall|v: u128| #[trigger] ids.contains(v) implies within(
        va[v],
        vb[v],
        order_spread(width, rank(v) + 1),
    ) by {
        assert(order.contains(v));
        let i = choose|i: int| 0 <= i < order.len() && order[i] == v;
        lemma_explained_close(order, a, b, base, va, vb, n, width, rank, i);
    }
}

/// The edges into `v` are a part of all edges by their kind, however all are ordered.
proof fn lemma_into_counts(edges: Seq<EdgeTuple>, base: Map<u128, nat>, v: u128, e: EdgeTuple)
    ensures
        edges_into(edges, base, v).to_multiset().count(e) == if e.1 == v && base.contains_key(e.0) {
            edges.to_multiset().count(e)
        } else {
            0
        },
    decreases edges.len(),
{
    broadcast use vstd::seq_lib::group_to_multiset_ensures;
    broadcast use vstd::multiset::group_multiset_axioms;

    if edges.len() > 0 {
        let shorter = edges.drop_last();
        lemma_into_counts(shorter, base, v, e);
        assert(edges =~= shorter.push(edges.last()));
        let before = edges_into(shorter, base, v);
        let all = edges_into(edges, base, v);
        if all.len() > before.len() {
            assert(all =~= before.push(edges.last()));
        }
    } else {
        assert(edges.to_multiset().len() == 0);
        assert(edges_into(edges, base, v).to_multiset().len() == 0);
    }
}

/// Edges in another order lead into a belief in another order.
proof fn lemma_into_permuted(
    a: Seq<EdgeTuple>,
    b: Seq<EdgeTuple>,
    base: Map<u128, nat>,
    v: u128,
)
    requires
        a.to_multiset() == b.to_multiset(),
    ensures
        edges_into(a, base, v).to_multiset() == edges_into(b, base, v).to_multiset(),
{
    let x = edges_into(a, base, v).to_multiset();
    let y = edges_into(b, base, v).to_multiset();
    assert forall|e: EdgeTuple| x.count(e) == y.count(e) by {
        lemma_into_counts(a, base, v, e);
        lemma_into_counts(b, base, v, e);
    }
    assert(x =~= y);
}

/// The weights and the values of the sources are up to one.
spec fn in_range(incoming: Seq<EdgeTuple>, val: Map<u128, nat>) -> bool {
    forall|i: int|
        0 <= i < incoming.len() ==> (#[trigger] incoming[i]).3.units() <= one()
            && val[incoming[i].0] <= one()
}

/// The values of the sources of propagating edges differ by no more than `k` places.
spec fn sources_within(
    incoming: Seq<EdgeTuple>,
    a: Map<u128, nat>,
    b: Map<u128, nat>,
    k: nat,
) -> bool {
    forall|i: int|
        0 <= i < incoming.len() && (#[trigger] incoming[i]).2 != EdgeType::Contradicts ==> within(
            a[incoming[i].0],
            b[incoming[i].0],
            k,
        )
}

/// A product of factors moves with the values of the sources.
proof fn lemma_product_moves(
    incoming: Seq<EdgeTuple>,
    a: Map<u128, nat>,
    b: Map<u128, nat>,
    k: nat,
    defeats: bool,
)
    requires
        in_range(incoming, a),
        in_range(incoming, b),
        sources_within(incoming, a, b, k),
    ensures
        rounded_product(incoming, a, defeats) <= one(),
        rounded_product(incoming, b, defeats) <= one(),
        within(
            rounded_product(incoming, a, defeats),
            rounded_product(incoming, b, defeats),
            incoming.len() * (k + 6),
        ),
    decreases incoming.len(),
{
    lemma_product_close(incoming, a, defeats);
    lemma_product_close(incoming, b, defeats);
    let n = incoming.len();
    let h = unit_place();
    if n > 0 {
        let shorter = incoming.drop_last();
        let e = incoming.last();
        let m = (n - 1) as nat;
        assert(incoming[n - 1] == e);
        assert forall|i: int| 0 <= i < shorter.len() implies (#[trigger] shorter[i]).3.units()
            <= one() && a[shorter[i].0] <= one() && b[shorter[i].0] <= one() by {
            assert(shorter[i] == incoming[i]);
        }
        assert forall|i: int|
            0 <= i < shorter.len() && (#[trigger] shorter[i]).2
                != EdgeType::Contradicts implies within(a[shorter[i].0], b[shorter[i].0], k) by {
            assert(shorter[i] == incoming[i]);
        }
        lemma_product_moves(shorter, a, b, k, defeats);
        let (p, q) = (rounded_product(shorter, a, defeats), rounded_product(shorter, b, defeats));
        assert(n * (k + 6) == m * (k + 6) + (k + 6)) by (nonlinear_arith)
            requires
                n == m + 1,
        ;
        if takes_part(e, defeats) {
            let w = e.3.units();
            let (s, t) = (times(w, a[e.0]), times(w, b[e.0]));
            assert(0 * h == 0);
            lemma_scaled_close(w, a[e.0], w, b[e.0], 0, k);
            lemma_unit_product(w, a[e.0]);
            lemma_unit_product(w, b[e.0]);
            lemma_unit_complement(s);
            lemma_unit_complement(t);
            let (f, g) = (complement(s), complement(t));
            assert((k + 4) * h == (k + 2) * h + 2 * h) by (nonlinear_arith);
            assert(within(f, g, k + 4));
            lemma_scaled_close(p, f, q, g, m * (k + 6), k + 4);
            assert(edge_factor(e, a) == f && edge_factor(e, b) == g);
            assert(rounded_product(incoming, a, defeats) == times(p, f));
            assert(rounded_product(incoming, b, defeats) == times(q, g));
        } else {
            assert((n * (k + 6)) * h >= (m * (k + 6)) * h) by (nonlinear_arith)
                requires
                    n * (k + 6) >= m * (k + 6),
            ;
            assert(rounded_product(incoming, a, defeats) == p);
            assert(rounded_product(incoming, b, defeats) == q);
        }
    } else {
        assert(0 * (k + 6) == 0 && 0 * h == 0);
    }
}

/// A value moves with the values of the sources.
proof fn lemma_value_moves(
    base: nat,
    incoming: Seq<EdgeTuple>,
    a: Map<u128, nat>,
    b: Map<u128, nat>,
    k: nat,
)
    requires
        base <= one(),
        in_range(incoming, a),
        in_range(incoming, b),
        sources_within(incoming, a, b, k),
    ensures
        within(
            combined(base, incoming, a),
            combined(base, incoming, b),
            2 * (incoming.len() * (k + 6)) + 6,
        ),
{
    let h = unit_place();
    if incoming.len() > 0 {
        lemma_product_moves(incoming, a, b, k, false);
        lemma_product_moves(incoming, a, b, k, true);
        let d = incoming.len() * (k + 6);
        let c = complement(base);
        let (sa, sb) = (support_complement(incoming, a), support_complement(incoming, b));
        let (da, db) = (defeat_factor(incoming, a), defeat_factor(incoming, b));
        assert(rounded_product(incoming, a, false) == sa && rounded_product(incoming, b, false)
            == sb);
        assert(rounded_product(incoming, a, true) == da && rounded_product(incoming, b, true)
            == db);
        lemma_unit_complement(base);
        assert(0 * h == 0);
        lemma_scaled_close(c, sa, c, sb, 0, d);
        lemma_unit_product(c, sa);
        lemma_unit_product(c, sb);
        let (ta, tb) = (times(c, sa), times(c, sb));
        lemma_unit_complement(ta);
        lemma_unit_complement(tb);
        let (ra, rb) = (complement(ta), complement(tb));
        assert((d + 4) * h == (d + 2) * h + 2 * h) by (nonlinear_arith);
        assert(0 + d + 2 == d + 2);
        lemma_scaled_close(ra, da, rb, db, d + 4, d);
        assert((d + 4) + d + 2 == 2 * d + 6);
    } else {
        assert(0 * (k + 6) == 0);
        assert((2 * (incoming.len() * (k + 6)) + 6) * h >= 0) by (nonlinear_arith);
    }
}

/// All values are up to one.
pub open spec fn are_bounded(base: Map<u128, nat>, val: Map<u128, nat>) -> bool {
    forall|x: u128| base.contains_key(x) ==> #[trigger] val[x] <= one()
}

/// The weights of the edges are up to one.
pub open spec fn weights_bounded(edges: Seq<EdgeTuple>) -> bool {
    forall|i: int| 0 <= i < edges.len() ==> (#[trigger] edges[i]).3.units() <= one()
}

proof fn lemma_into_in_range(
    edges: Seq<EdgeTuple>,
    base: Map<u128, nat>,
    val: Map<u128, nat>,
    v: u128,
)
    requires
        are_bounded(base, val),
        weights_bounded(edges),
    ensures
        in_range(edges_into(edges, base, v), val),
{
    let x = edges_into(edges, base, v);
    assert forall|i: int| 0 <= i < x.len() implies (#[trigger] x[i]).3.units() <= one()
        && val[x[i].0] <= one() by {
        lemma_edge_into(edges, base, v, i);
        let k = choose|k: int| 0 <= k < edges.len() && #[trigger] edges[k] == x[i];
        assert(edges[k].3.units() <= one());
    }
}

/// `m` holds, up to the change that ends a propagation, the values of `val`, and
/// gives `v` its value.
pub open spec fn explains(
    edges: Seq<EdgeTuple>,
    base: Map<u128, nat>,
    val: Map<u128, nat>,
    v: u128,
    m: Map<u128, nat>,
) -> bool {
    &&& are_bounded(base, m)
    &&& forall|x: u128| base.contains_key(x) ==> within(#[trigger] m[x], val[x], 0x0100_0000)
    &&& val[v] == combined(base[v], edges_into(edges, base, v), m)
}

pub open spec fn is_explained(
    edges: Seq<EdgeTuple>,
    base: Map<u128, nat>,
    val: Map<u128, nat>,
    v: u128,
) -> bool {
    exists|m: Map<u128, nat>| explains(edges, base, val, v, m)
}

/// A change that ends a propagation is less than `2^24` places.
proof fn lemma_settled_places(a: nat, b: nat)
    requires
        distance(a, b) < settled_units(),
    ensures
        within(a, b, 0x0100_0000),
{
    lemma_settled_pattern();
    lemma_pattern_representable(SETTLED_BITS);
    let gap: nat = if a >= b {
        (a - b) as nat
    } else {
        (b - a) as nat
    };
    if gap >= settled_units() {
        lemma_round_at_least(53, gap, 1, settled_units());
    }
    lemma2_to64();
    lemma_pow2_adds(29, 992);
    lemma_pow2_pos(992);
    assert(0x3E11_2E0B_E826_D695nat / 0x0010_0000_0000_0000 == 993);
    let m: nat = 0x0010_0000_0000_0000 + 0x3E11_2E0B_E826_D695nat % 0x0010_0000_0000_0000;
    assert(m == 4835703278458517);
    assert(m * pow2(992) <= 0x0100_0000 * unit_place()) by (nonlinear_arith)
        requires
            unit_place() == 0x2000_0000 * pow2(992),
            m == 4835703278458517,
            pow2(992) > 0,
    ;
}

proof fn lemma_same_within(a: nat, k: nat)
    ensures
        within(a, a, k),
{
    assert(k * unit_place() >= 0) by (nonlinear_arith);
}

/// A sweep that ends a propagation explains the values that it leaves.
proof fn lemma_last_sweep(
    order: Seq<u128>,
    edges: Seq<EdgeTuple>,
    base: Map<u128, nat>,
    current: Map<u128, nat>,
    i: int,
)
    requires
        order.no_duplicates(),
        0 <= i <= order.len(),
        sweep(order, edges, base, current, i).1,
        are_bounded(base, current),
        are_bounded(base, base),
        weights_bounded(edges),
        forall|j: int| 0 <= j < order.len() ==> base.contains_key(#[trigger] order[j]),
    ensures
        ({
            let last = sweep(order, edges, base, current, i).0;
            &&& are_bounded(base, last)
            &&& forall|x: u128| within(#[trigger] current[x], last[x], 0x0100_0000)
            &&& forall|x: u128|
                (forall|j: int| i <= j < order.len() ==> order[j] != x) ==> current[x]
                    == #[trigger] last[x]
            &&& forall|j: int|
                i <= j < order.len() ==> is_explained(edges, base, last, #[trigger] order[j])
        }),
    decreases order.len() - i,
{
    let last = sweep(order, edges, base, current, i).0;
    if i < order.len() {
        let v = order[i];
        let p = combined(base[v], edges_into(edges, base, v), current);
        let next = current.insert(v, p);
        lemma_into_in_range(edges, base, current, v);
        law_edges_move_a_belief_their_way(base[v], edges_into(edges, base, v), current);
        assert forall|x: u128| base.contains_key(x) implies #[trigger] next[x] <= one() by {
            assert(current[x] <= one());
        }
        lemma_last_sweep(order, edges, base, next, i + 1);
        assert forall|j: int| i + 1 <= j < order.len() implies order[j] != v by {}
        assert(next[v] == last[v]);
        lemma_settled_places(p, current[v]);
        assert forall|x: u128| within(#[trigger] current[x], last[x], 0x0100_0000) by {
            if x != v {
                assert(next[x] == current[x]);
                assert(within(next[x], last[x], 0x0100_0000));
            }
        }
        assert forall|x: u128|
            (forall|j: int| i <= j < order.len() ==> order[j] != x) implies current[x]
            == #[trigger] last[x] by {
            assert(order[i] != x);
            assert(next[x] == last[x]);
        }
        assert forall|j: int| i <= j < order.len() implies is_explained(
            edges,
            base,
            last,
            #[trigger] order[j],
        ) by {
            if j == i {
                assert(explains(edges, base, last, v, current));
            }
        }
    } else {
        assert forall|x: u128| within(#[trigger] current[x], last[x], 0x0100_0000) by {
            lemma_same_within(current[x], 0x0100_0000);
        }
    }
}

/// A value depends on the values of the sources of propagating edges only.
proof fn lemma_value_depends(
    base: nat,
    incoming: Seq<EdgeTuple>,
    a: Map<u128, nat>,
    b: Map<u128, nat>,
)
    requires
        forall|i: int|
            0 <= i < incoming.len() && (#[trigger] incoming[i]).2 != EdgeType::Contradicts
                ==> a[incoming[i].0] == b[incoming[i].0],
    ensures
        combined(base, incoming, a) == combined(base, incoming, b),
        support_complement(incoming, a) == support_complement(incoming, b),
        defeat_factor(incoming, a) == defeat_factor(incoming, b),
    decreases incoming.len(),
{
    if incoming.len() > 0 {
        let shorter = incoming.drop_last();
        assert forall|i: int|
            0 <= i < shorter.len() && (#[trigger] shorter[i]).2
                != EdgeType::Contradicts implies a[shorter[i].0] == b[shorter[i].0] by {
            assert(shorter[i] == incoming[i]);
        }
        lemma_value_depends(base, shorter, a, b);
        assert(incoming[incoming.len() - 1] == incoming.last());
    }
}

/// The values of the nodes of a rank below `k` are those that their sources give.
pub open spec fn settles_below(
    order: Seq<u128>,
    edges: Seq<EdgeTuple>,
    base: Map<u128, nat>,
    val: Map<u128, nat>,
    k: nat,
    rank: spec_fn(u128) -> nat,
) -> bool {
    forall|i: int|
        0 <= i < order.len() && rank(#[trigger] order[i]) < k ==> val[order[i]] == combined(
            base[order[i]],
            edges_into(edges, base, order[i]),
            val,
        )
}

/// A node of rank `r` has the same value for values that agree below `r` and outside.
proof fn lemma_value_depends_below(
    order: Seq<u128>,
    edges: Seq<EdgeTuple>,
    base: Map<u128, nat>,
    a: Map<u128, nat>,
    b: Map<u128, nat>,
    limit: nat,
    rank: spec_fn(u128) -> nat,
    i: int,
)
    requires
        layered_by(order, edges, limit, rank),
        0 <= i < order.len(),
        forall|x: u128| !order.contains(x) || rank(x) < rank(order[i]) ==> a[x] == #[trigger] b[x],
    ensures
        combined(base[order[i]], edges_into(edges, base, order[i]), a) == combined(
            base[order[i]],
            edges_into(edges, base, order[i]),
            b,
        ),
{
    let v = order[i];
    let incoming = edges_into(edges, base, v);
    assert(order.contains(v));
    assert forall|j: int|
        0 <= j < incoming.len() && (#[trigger] incoming[j]).2
            != EdgeType::Contradicts implies a[incoming[j].0] == b[incoming[j].0] by {
        lemma_edge_into(edges, base, v, j);
        let k = choose|k: int| 0 <= k < edges.len() && #[trigger] edges[k] == incoming[j];
        assert(edges[k].1 == v);
        if order.contains(edges[k].0) {
            assert(rank(edges[k].0) < rank(v));
        }
        assert(a[edges[k].0] == b[edges[k].0]);
    }
    lemma_value_depends(base[v], incoming, a, b);
}

/// A sweep over values that are settled below rank `k` leaves them, and settles those
/// of rank `k`.
proof fn lemma_sweep_settles(
    order: Seq<u128>,
    edges: Seq<EdgeTuple>,
    base: Map<u128, nat>,
    val: Map<u128, nat>,
    current: Map<u128, nat>,
    limit: nat,
    k: nat,
    rank: spec_fn(u128) -> nat,
    i: int,
)
    requires
        layered_by(order, edges, limit, rank),
        settles_below(order, edges, base, val, k, rank),
        0 <= i <= order.len(),
        are_bounded(base, current),
        are_bounded(base, base),
        weights_bounded(edges),
        forall|j: int| 0 <= j < order.len() ==> base.contains_key(#[trigger] order[j]),
        forall|x: u128| !order.contains(x) || rank(x) < k ==> val[x] == #[trigger] current[x],
        forall|j: int|
            0 <= j < i && rank(#[trigger] order[j]) == k ==> current[order[j]] == combined(
                base[order[j]],
                edges_into(edges, base, order[j]),
                current,
            ),
    ensures
        settles_below(
            order,
            edges,
            base,
            sweep(order, edges, base, current, i).0,
            k + 1,
            rank,
        ),
        are_bounded(base, sweep(order, edges, base, current, i).0),
        forall|x: u128|
            !order.contains(x) ==> val[x] == #[trigger] sweep(order, edges, base, current, i).0[x],
    decreases order.len() - i,
{
    if i < order.len() {
        let v = order[i];
        let p = combined(base[v], edges_into(edges, base, v), current);
        let next = current.insert(v, p);
        assert(order.contains(v));
        lemma_into_in_range(edges, base, current, v);
        law_edges_move_a_belief_their_way(base[v], edges_into(edges, base, v), current);
        assert forall|x: u128| base.contains_key(x) implies #[trigger] next[x] <= one() by {
            assert(current[x] <= one());
        }
        if rank(v) < k {
            assert forall|x: u128|
                !order.contains(x) || rank(x) < rank(v) implies val[x] == #[trigger] current[x] by {}
            lemma_value_depends_below(order, edges, base, val, current, limit, rank, i);
            assert(p == val[v]);
        }
        assert forall|x: u128| !order.contains(x) || rank(x) < k implies val[x]
            == #[trigger] next[x] by {
            assert(val[x] == current[x]);
        }
        assert forall|j: int| 0 <= j < i + 1 && rank(#[trigger] order[j]) == k implies next[order[j]]
            == combined(base[order[j]], edges_into(edges, base, order[j]), next) by {
            assert forall|x: u128|
                !order.contains(x) || rank(x) < rank(order[j]) implies current[x]
                    == #[trigger] next[x] by {
                assert(val[x] == current[x]);
                assert(val[x] == next[x]);
            }
            lemma_value_depends_below(order, edges, base, current, next, limit, rank, j);
        }
        lemma_sweep_settles(order, edges, base, val, next, limit, k, rank, i + 1);
    } else {
        assert forall|j: int| 0 <= j < order.len() && rank(#[trigger] order[j]) < k + 1 implies current[order[j]]
            == combined(base[order[j]], edges_into(edges, base, order[j]), current) by {
            if rank(order[j]) < k {
                assert forall|x: u128|
                    !order.contains(x) || rank(x) < rank(order[j]) implies val[x]
                        == #[trigger] current[x] by {}
                lemma_value_depends_below(order, edges, base, val, current, limit, rank, j);
                assert(val[order[j]] == current[order[j]]);
            }
        }
    }
}

/// The values at the end of a propagation are explained.
pub proof fn lemma_end_is_explained(
    order: Seq<u128>,
    edges: Seq<EdgeTuple>,
    base: Map<u128, nat>,
    val: Map<u128, nat>,
    n: nat,
    k: nat,
    rank: spec_fn(u128) -> nat,
)
    requires
        order.no_duplicates(),
        layered_by(order, edges, n + k, rank),
        settles_below(order, edges, base, val, k, rank),
        are_bounded(base, val),
        are_bounded(base, base),
        weights_bounded(edges),
        forall|j: int| 0 <= j < order.len() ==> base.contains_key(#[trigger] order[j]),
    ensures
        forall|j: int|
            0 <= j < order.len() ==> is_explained(
                edges,
                base,
                swept(order, edges, base, val, n),
                #[trigger] order[j],
            ),
        forall|x: u128|
            !order.contains(x) ==> val[x] == #[trigger] swept(order, edges, base, val, n)[x],
    decreases n,
{
    let last = swept(order, edges, base, val, n);
    if n > 0 {
        let (next, settled) = sweep(order, edges, base, val, 0);
        if settled {
            lemma_last_sweep(order, edges, base, val, 0);
            assert forall|x: u128| !order.contains(x) implies val[x] == #[trigger] last[x] by {
                assert forall|j: int| 0 <= j < order.len() implies order[j] != x by {
                    assert(order.contains(order[j]));
                }
            }
        } else {
            lemma_sweep_settles(order, edges, base, val, val, n + k, k, rank, 0);
            lemma_end_is_explained(order, edges, base, next, (n - 1) as nat, k + 1, rank);
            assert forall|x: u128| !order.contains(x) implies val[x] == #[trigger] last[x] by {
                assert(val[x] == next[x]);
            }
        }
    } else {
        assert forall|j: int| 0 <= j < order.len() implies is_explained(
            edges,
            base,
            last,
            #[trigger] order[j],
        ) by {
            assert(rank(order[j]) < k);
            assert forall|x: u128| base.contains_key(x) implies within(
                #[trigger] val[x],
                last[x],
                0x0100_0000,
            ) by {
                lemma_same_within(val[x], 0x0100_0000);
            }
            assert(explains(edges, base, last, order[j], val));
        }
    }
}

proof fn lemma_spread_grows(width: nat, a: nat, b: nat)
    requires
        a <= b,
    ensures
        order_spread(width, a) <= order_spread(width, b),
    decreases b,
{
    if a > 0 {
        lemma_spread_grows(width, (a - 1) as nat, (b - 1) as nat);
        let x = order_spread(width, (a - 1) as nat) + 0x0200_0000;
        let y = order_spread(width, (b - 1) as nat) + 0x0200_0000;
        assert(2 * width * x <= 2 * width * y) by (nonlinear_arith)
            requires
                x <= y,
        ;
    }
}

proof fn lemma_within_less(a: nat, b: nat, j: nat, k: nat)
    requires
        within(a, b, j),
        j <= k,
    ensures
        within(a, b, k),
{
    assert(j * unit_place() <= k * unit_place()) by (nonlinear_arith)
        requires
            j <= k,
    ;
}

proof fn lemma_within_chain(a: nat, b: nat, c: nat, j: nat, k: nat)
    requires
        within(a, b, j),
        within(b, c, k),
    ensures
        within(a, c, j + k),
{
    assert((j + k) * unit_place() == j * unit_place() + k * unit_place()) by (nonlinear_arith);
}

/// Explained values of the same edges in two orders are close to each other.
proof fn lemma_explained_close(
    order: Seq<u128>,
    a: Seq<EdgeTuple>,
    b: Seq<EdgeTuple>,
    base: Map<u128, nat>,
    va: Map<u128, nat>,
    vb: Map<u128, nat>,
    limit: nat,
    width: nat,
    rank: spec_fn(u128) -> nat,
    i: int,
)
    requires
        a.to_multiset() == b.to_multiset(),
        layered_by(order, a, limit, rank),
        are_bounded(base, base),
        weights_bounded(a),
        weights_bounded(b),
        0 <= i < order.len(),
        forall|j: int| 0 <= j < order.len() ==> base.contains_key(#[trigger] order[j]),
        forall|j: int|
            0 <= j < order.len() ==> edges_into(a, base, #[trigger] order[j]).len() <= width,
        forall|j: int| 0 <= j < order.len() ==> is_explained(a, base, va, #[trigger] order[j]),
        forall|j: int| 0 <= j < order.len() ==> is_explained(b, base, vb, #[trigger] order[j]),
        forall|x: u128| !order.contains(x) ==> va[x] == #[trigger] vb[x],
    ensures
        within(va[order[i]], vb[order[i]], order_spread(width, rank(order[i]) + 1)),
    decreases rank(order[i]),
{
    let v = order[i];
    let x = edges_into(a, base, v);
    let y = edges_into(b, base, v);
    let n = x.len();
    assert(order.contains(v));
    assert(is_explained(a, base, va, order[i]) && is_explained(b, base, vb, order[i]));
    let ma = choose|m: Map<u128, nat>| explains(a, base, va, v, m);
    let mb = choose|m: Map<u128, nat>| explains(b, base, vb, v, m);
    let below = order_spread(width, rank(v));
    let k = below + 0x0200_0000;
    lemma_into_in_range(a, base, ma, v);
    lemma_into_in_range(a, base, mb, v);
    lemma_into_permuted(a, b, base, v);
    assert forall|j: int| 0 <= j < n && (#[trigger] x[j]).2 != EdgeType::Contradicts implies within(
        ma[x[j].0],
        mb[x[j].0],
        k,
    ) by {
        let s = x[j].0;
        lemma_edge_into(a, base, v, j);
        let e = choose|e: int| 0 <= e < a.len() && #[trigger] a[e] == x[j];
        assert(a[e].1 == v);
        if order.contains(s) {
            assert(rank(a[e].0) < rank(v));
            let t = choose|t: int| 0 <= t < order.len() && order[t] == s;
            lemma_explained_close(order, a, b, base, va, vb, limit, width, rank, t);
            lemma_spread_grows(width, rank(s) + 1, rank(v));
            lemma_within_less(va[s], vb[s], order_spread(width, rank(s) + 1), below);
        } else {
            assert(va[s] == vb[s]);
            lemma_same_within(va[s], below);
        }
        assert(within(ma[s], va[s], 0x0100_0000) && within(mb[s], vb[s], 0x0100_0000));
        lemma_within_chain(ma[s], va[s], vb[s], 0x0100_0000, below);
        lemma_within_chain(ma[s], vb[s], mb[s], 0x0100_0000 + below, 0x0100_0000);
    }
    lemma_value_moves(base[v], x, ma, mb, k);
    law_edge_order_shows_in_last_places_only(base[v], x, y, mb);
    assert(within(combined(base[v], x, mb), combined(base[v], y, mb), 4 * n + 6));
    lemma_within_chain(
        va[v],
        combined(base[v], x, mb),
        vb[v],
        2 * (n * (k + 6)) + 6,
        4 * n + 6,
    );
    assert(2 * (n * (k + 6)) + 6 + (4 * n + 6) <= 2 * width * k + 16 * width + 12) by (nonlinear_arith)
        requires
            n <= width,
    {
        assert(2 * (n * (k + 6)) == 2 * (n * k) + 12 * n);
        assert(n * k <= width * k);
        assert(2 * width * k == 2 * (width * k));
    }
    lemma_within_less(
        va[v],
        vb[v],
        2 * (n * (k + 6)) + 6 + (4 * n + 6),
        order_spread(width, rank(v) + 1),
    );
}

} // verus!
