//! How far the numbers of the library can lie from the exact ones: the formulas that they
//! are computed by, in whole numbers and without rounding.
use vstd::arithmetic::power2::*;
use vstd::prelude::*;

use crate::binary64::{
    complement, distance, lemma_one_units, lemma_pattern_representable, one, plus, quotient, times,
    Binary64, ONE_BITS,
};
use crate::graph::{
    attenuated, confidence_of, last_place, lemma_complement_close, lemma_count_rounding,
    lemma_half_units, lemma_share_close, lemma_strength_close, lemma_strength_patterns, mean_of,
    prior_counts, strength_of, STRENGTH_RANGE,
};
use crate::inference::{defeated, supported};
use crate::inference_laws::{lemma_unit_complement, lemma_unit_product, unit_place};
use crate::posterior::{decayed_count, evidence, grounded_retention};
use crate::rounding::{
    lemma_representable, lemma_round_at_least, lemma_round_at_most, lemma_round_close,
    lemma_round_exact, lemma_round_relative, lemma_round_representable, representable,
};

verus! {

/// Two numbers differ by no more than a third.
pub open spec fn is_near(a: int, b: int, gap: int) -> bool {
    a <= b + gap && b <= a + gap
}

proof fn lemma_places()
    ensures
        one() == pow2(53) * unit_place(),
        unit_place() > 0,
        pow2(53) > 0,
        pow2(53) <= one(),
{
    lemma_pow2_adds(53, 1021);
    lemma_pow2_pos(1021);
    lemma_pow2_pos(53);
    assert(pow2(53) <= pow2(53) * pow2(1021)) by (nonlinear_arith)
        requires
            pow2(1021) > 0,
    ;
}

/// The mean of counts is the share of those in favour among all, up to a few last places;
/// one half where there are none.
pub proof fn law_the_mean_is_the_share_in_favour(alpha: nat, beta: nat)
    ensures
        alpha + beta == 0 ==> 2 * mean_of(alpha, beta) == one(),
        alpha + beta > 0 ==> ({
            let p = pow2(53);
            let m = mean_of(alpha, beta);
            let all = alpha + beta;
            &&& m * all * (p - 1) <= alpha * one() * (p + 1) + all * (p + 1)
            &&& alpha * one() * (p - 1) <= m * all * (p + 1) + all * (p + 1)
        }),
{
    let p = pow2(53);
    let u = one();
    let all = alpha + beta;
    let t = plus(alpha, beta);
    lemma_places();
    lemma2_to64_rest();
    lemma_half_units();
    lemma_round_relative(53, all, 1);
    assert(t * 1 == t);
    if all > 0 {
        assert(t > 0) by (nonlinear_arith)
            requires
                all * p <= t * p + all,
                all > 0,
                p > 1,
        ;
        let m = quotient(alpha, t);
        lemma_round_relative(53, alpha * u, t);
        let x = alpha * u;
        assert(m * all * (p - 1) <= x * (p + 1) + all * (p + 1) && x * (p - 1) <= m * all * (p + 1)
            + all * (p + 1)) by (nonlinear_arith)
            requires
                t * p <= all * p + all,
                all * p <= t * p + all,
                (m * t) * p <= x * p + x + p * t,
                x * p <= (m * t) * p + x + p * t,
                p > 1,
        {
            assert(m * all * (p - 1) == m * (all * p - all));
            assert(m * (all * p - all) <= m * (t * p));
            assert(m * (t * p) == (m * t) * p);
            assert(p * t == t * p);
            assert(x * (p + 1) == x * p + x);
            assert(all * (p + 1) == all * p + all);
            assert(x * (p - 1) == x * p - x);
            assert(m * (t * p) <= m * (all * p + all));
            assert(m * (all * p + all) == m * all * (p + 1));
        }
    } else {
        assert(t == 0);
        assert(mean_of(alpha, beta) * 2 == u);
    }
}

/// The counts of a prior are its probability, and one minus that, times two plus 198 times
/// its confidence, up to a few last places.
pub proof fn law_a_prior_splits_its_strength(p: nat, c: nat)
    requires
        p <= one(),
        c <= one(),
    ensures
        ({
            let n = prior_counts(p, c);
            let strength = 2 * one() + 198 * c;
            let gap = (256 * pow2(1029) * one()) as int;
            &&& is_near(n.0 * one() as int, p * strength as int, gap)
            &&& is_near(n.1 * one() as int, (one() - p) * strength, gap)
        }),
{
    let u = one();
    let h = last_place();
    let s = strength_of(c);
    let e = 2 * u + 198 * c;
    let q = complement(p);
    lemma_pow2_pos(1074);
    lemma_pow2_pos(1029);
    lemma_strength_close(c);
    lemma_complement_close(p);
    lemma_share_close(p, s);
    lemma_share_close(q, s);
    let a = times(p, s);
    let b = times(q, s);
    let r = (u - p) as nat;
    assert(p * s <= p * e + 2 * (h * u) && p * e <= p * s + 2 * (h * u)) by (nonlinear_arith)
        requires
            s <= e + 2 * h,
            e <= s + 2 * h,
            p <= u,
    {
        assert(p * s <= p * (e + 2 * h) && p * e <= p * (s + 2 * h));
        assert(p * (e + 2 * h) == p * e + 2 * (p * h) && p * (s + 2 * h) == p * s + 2 * (p * h));
        assert(p * h <= h * u);
    }
    assert(r * s <= r * e + 2 * (h * u) && r * e <= r * s + 2 * (h * u)) by (nonlinear_arith)
        requires
            s <= e + 2 * h,
            e <= s + 2 * h,
            r <= u,
    {
        assert(r * s <= r * (e + 2 * h) && r * e <= r * (s + 2 * h));
        assert(r * (e + 2 * h) == r * e + 2 * (r * h) && r * (s + 2 * h) == r * s + 2 * (r * h));
        assert(r * h <= h * u);
    }
    assert(q * s <= r * s + 200 * (h * u) && r * s <= q * s + 200 * (h * u)) by (nonlinear_arith)
        requires
            q <= r + h,
            r <= q + h,
            s <= 200 * u,
    {
        assert(q * s <= (r + h) * s && r * s <= (q + h) * s);
        assert((r + h) * s == r * s + h * s && (q + h) * s == q * s + h * s);
        assert(h * s <= h * (200 * u));
        assert(h * (200 * u) == 200 * (h * u));
    }
    assert(256 * h * u == 256 * (h * u)) by (nonlinear_arith);
}

/// The confidence of a strength is what it has above two, over 198, up to a few last
/// places, and at least zero and at most one.
pub proof fn law_confidence_is_the_strength_above_two(strength: nat)
    ensures
        strength <= 2 * one() ==> confidence_of(strength) == 0,
        strength >= 200 * one() ==> confidence_of(strength) == one(),
        2 * one() <= strength <= 200 * one() ==> is_near(
            198 * confidence_of(strength) as int,
            strength - 2 * one(),
            199 * pow2(1029) as int,
        ),
{
    let u = one();
    let h = last_place();
    lemma_pow2_pos(1074);
    if 2 * u < strength && strength < 200 * u {
        let above = (strength - 2 * u) as nat;
        let d = distance(strength, 2 * u);
        lemma_strength_patterns();
        lemma_pattern_representable(STRENGTH_RANGE);
        lemma_round_at_most(53, above, 1, 198 * u);
        lemma_count_rounding(above, 1);
        let q = quotient(d, 198 * u);
        assert(d * u <= 256 * u * (198 * u)) by (nonlinear_arith)
            requires
                d <= 198 * u,
                u > 0,
        ;
        lemma_count_rounding(d * u, 198 * u);
        assert(198 * q <= d + 198 * h && d <= 198 * q + 198 * h) by (nonlinear_arith)
            requires
                q * (198 * u) <= d * u + h * (198 * u),
                d * u <= q * (198 * u) + h * (198 * u),
                u > 0,
        {
            assert(q * (198 * u) == (198 * q) * u && h * (198 * u) == (198 * h) * u);
            assert((d + 198 * h) * u == d * u + (198 * h) * u);
            assert((198 * q + 198 * h) * u == (198 * q) * u + (198 * h) * u);
        }
    }
}

/// What is left of a probability is its product with the retained part, up to a last place.
pub proof fn law_decay_is_a_product(p: nat, retention: Binary64)
    requires
        p <= one(),
        retention.in_unit_range(),
    ensures
        is_near(
            attenuated(p, retention) * one() as int,
            p * retention.units() as int,
            unit_place() * one() as int,
        ),
{
    lemma_one_units();
    crate::binary64::lemma_pattern_weak_order(retention.bits, ONE_BITS);
    lemma_unit_product(p, retention.units());
}

/// A defeat leaves of a probability its product with one minus weight times defeater, up
/// to a few last places.
pub proof fn law_a_defeat_takes_weight_times_defeater(p: nat, defeater: nat, weight: nat)
    requires
        p <= one(),
        defeater <= one(),
        weight <= one(),
    ensures
        is_near(
            defeated(p, defeater, weight) * one() * one() as int,
            p * (one() * one() - weight * defeater),
            4 * unit_place() * one() * one() as int,
        ),
{
    let t = times(weight, defeater);
    let c = complement(t);
    let r = times(p, c);
    lemma_unit_product(weight, defeater);
    lemma_unit_complement(t);
    lemma_unit_product(p, c);
    lemma_pow2_pos(1074);
    lemma_defeat_close(
        p as int,
        weight as int,
        defeater as int,
        t as int,
        c as int,
        r as int,
        one() as int,
        unit_place() as int,
    );
}

proof fn lemma_defeat_close(p: int, w: int, d: int, t: int, c: int, r: int, u: int, h: int)
    requires
        0 <= p <= u,
        0 <= w <= u,
        0 <= d <= u,
        0 <= c,
        0 <= h,
        is_near(t * u, w * d, h * u),
        is_near(c + t, u, h),
        is_near(r * u, p * c, h * u),
    ensures
        is_near(r * u * u, p * (u * u - w * d), 4 * h * u * u),
{
    let wd = w * d;
    let e = u * u - wd;
    assert(wd <= u * u) by (nonlinear_arith)
        requires
            wd == w * d,
            0 <= w <= u,
            0 <= d <= u,
    ;
    assert(is_near(c * u, e, 2 * (h * u))) by (nonlinear_arith)
        requires
            e == u * u - wd,
            is_near(c + t, u, h),
            is_near(t * u, wd, h * u),
            u >= 0,
    {
        assert((c + t) * u <= (u + h) * u && u * u <= (c + t + h) * u);
        assert((c + t) * u == c * u + t * u && (u + h) * u == u * u + h * u);
        assert((c + t + h) * u == c * u + t * u + h * u);
    }
    let cu = c * u;
    let hu = h * u;
    assert(hu >= 0) by (nonlinear_arith)
        requires
            hu == h * u,
            h >= 0,
            u >= 0,
    ;
    assert(is_near(r * u * u, p * cu, hu * u)) by (nonlinear_arith)
        requires
            cu == c * u,
            is_near(r * u, p * c, hu),
            u >= 0,
    {
        assert((r * u) * u <= (p * c + hu) * u && (p * c) * u <= (r * u + hu) * u);
        assert((p * c + hu) * u == p * cu + hu * u);
        assert((r * u + hu) * u == r * u * u + hu * u);
        assert((p * c) * u == p * cu);
    }
    assert(is_near(p * cu, p * e, 2 * (hu * u))) by (nonlinear_arith)
        requires
            is_near(cu, e, 2 * hu),
            0 <= p <= u,
            hu >= 0,
    {
        assert(p * cu <= p * (e + 2 * hu) && p * e <= p * (cu + 2 * hu));
        assert(p * (e + 2 * hu) == p * e + 2 * (p * hu));
        assert(p * (cu + 2 * hu) == p * cu + 2 * (p * hu));
        assert(p * hu <= u * hu);
        assert(u * hu == hu * u);
    }
    assert(4 * h * u * u == 4 * (hu * u) && hu * u >= 0) by (nonlinear_arith)
        requires
            hu == h * u,
            hu >= 0,
            u >= 0,
    ;
}

/// Support adds to a probability what is missing to one times weight times supporter, up
/// to a few last places.
pub proof fn law_support_adds_weight_times_supporter(p: nat, supporter: nat, weight: nat)
    requires
        p <= one(),
        supporter <= one(),
        weight <= one(),
    ensures
        is_near(
            supported(p, supporter, weight) * one() * one() as int,
            p * one() * one() + (one() - p) * weight * supporter,
            8 * unit_place() * one() * one() as int,
        ),
{
    let c = complement(p);
    let a = times(c, weight);
    let b = times(a, supporter);
    let sum = plus(p, b);
    lemma_pow2_pos(1074);
    lemma_unit_complement(p);
    lemma_unit_product(c, weight);
    lemma_unit_product(a, supporter);
    lemma_pow2_adds(1, 1074);
    lemma_pow2_adds(1, 1021);
    lemma2_to64();
    lemma_round_close(53, p + b, 1, 1075);
    lemma_support_close(
        p as int,
        weight as int,
        supporter as int,
        c as int,
        a as int,
        b as int,
        sum as int,
        one() as int,
        unit_place() as int,
    );
}

proof fn lemma_support_close(
    p: int,
    w: int,
    s: int,
    c: int,
    a: int,
    b: int,
    sum: int,
    u: int,
    h: int,
)
    requires
        0 <= p <= u,
        0 <= w <= u,
        0 <= s <= u,
        0 <= c,
        0 <= a,
        0 <= b,
        0 <= h,
        is_near(c + p, u, h),
        is_near(a * u, c * w, h * u),
        is_near(b * u, a * s, h * u),
        is_near(sum, p + b, 2 * h),
    ensures
        ({
            let r = if sum <= u {
                sum
            } else {
                u
            };
            is_near(r * u * u, p * u * u + (u - p) * w * s, 8 * h * u * u)
        }),
{
    let m = u - p;
    let cw = c * w;
    let mw = m * w;
    let ws = mw * s;
    let hu = h * u;
    let huu = hu * u;
    assert(hu >= 0 && huu >= 0) by (nonlinear_arith)
        requires
            hu == h * u,
            huu == hu * u,
            h >= 0,
            u >= 0,
    ;
    assert(is_near(a * u, mw, 2 * hu)) by (nonlinear_arith)
        requires
            cw == c * w,
            mw == m * w,
            hu == h * u,
            is_near(a * u, cw, hu),
            is_near(c, m, h),
            0 <= w <= u,
            h >= 0,
    {
        assert(c * w <= (m + h) * w && m * w <= (c + h) * w);
        assert((m + h) * w == mw + h * w && (c + h) * w == cw + h * w);
        assert(h * w <= h * u);
    }
    let au = a * u;
    assert(is_near(b * u * u, au * s, huu)) by (nonlinear_arith)
        requires
            au == a * u,
            huu == hu * u,
            is_near(b * u, a * s, hu),
            u >= 0,
    {
        assert((b * u) * u <= (a * s + hu) * u && (a * s) * u <= (b * u + hu) * u);
        assert((a * s + hu) * u == au * s + huu);
        assert((b * u + hu) * u == b * u * u + huu);
        assert((a * s) * u == au * s);
    }
    assert(is_near(au * s, ws, 2 * huu)) by (nonlinear_arith)
        requires
            ws == mw * s,
            huu == hu * u,
            is_near(au, mw, 2 * hu),
            0 <= s <= u,
            hu >= 0,
    {
        assert(au * s <= (mw + 2 * hu) * s && mw * s <= (au + 2 * hu) * s);
        assert((mw + 2 * hu) * s == ws + 2 * (hu * s));
        assert((au + 2 * hu) * s == au * s + 2 * (hu * s));
        assert(hu * s <= hu * u);
    }
    assert(ws <= m * u * u) by (nonlinear_arith)
        requires
            ws == mw * s,
            mw == m * w,
            0 <= m,
            0 <= w <= u,
            0 <= s <= u,
    {
        assert(m * w <= m * u);
        assert(0 <= m * w);
        assert((m * w) * s <= (m * w) * u);
        assert((m * w) * u <= (m * u) * u);
    }
    assert(p * u * u + m * u * u == u * u * u) by (nonlinear_arith)
        requires
            p + m == u,
    {
        assert((p + m) * u * u == p * u * u + m * u * u);
    }
    assert(is_near(sum * u * u, p * u * u + b * u * u, 2 * huu)) by (nonlinear_arith)
        requires
            is_near(sum, p + b, 2 * h),
            huu == h * u * u,
            u >= 0,
    {
        assert(u * u >= 0);
        assert(sum * (u * u) <= (p + b + 2 * h) * (u * u));
        assert((p + b) * (u * u) <= (sum + 2 * h) * (u * u));
        assert((p + b + 2 * h) * (u * u) == p * u * u + b * u * u + 2 * (h * u * u));
        assert((p + b) * (u * u) == p * u * u + b * u * u);
        assert((sum + 2 * h) * (u * u) == sum * u * u + 2 * (h * u * u));
        assert(sum * (u * u) == sum * u * u);
    }
    if sum > u {
        assert(u * u * u <= sum * u * u) by (nonlinear_arith)
            requires
                0 <= u < sum,
        {
            assert(u * u >= 0);
            assert(u * (u * u) <= sum * (u * u));
        }
    }
    assert(8 * h * u * u == 8 * huu) by (nonlinear_arith)
        requires
            huu == h * u * u,
    ;
    assert((u - p) * w * s == ws);
}

/// The evidence of an edge is four times its weight times the mean of its source, up to a
/// few last places.
pub proof fn law_evidence_is_a_product(weight: nat, mean: nat)
    requires
        weight <= one(),
        mean <= one(),
    ensures
        is_near(
            evidence(weight, mean) * one() as int,
            4 * (weight * mean) as int,
            4 * unit_place() * one() as int,
        ),
{
    let u = one();
    let h = unit_place();
    let t = times(weight, mean);
    lemma_pow2_pos(1074);
    lemma_unit_product(weight, mean);
    lemma_round_representable(53, weight * mean, u);
    lemma_four_times_representable(t);
    assert(t * (4 * u) == (4 * t) * u) by (nonlinear_arith);
    lemma_round_exact(53, 4 * t, u);
    assert((4 * t) * u == 4 * (t * u) && 4 * h * u == 4 * (h * u)) by (nonlinear_arith);
}

proof fn lemma_four_times_representable(v: nat)
    requires
        representable(53, v),
    ensures
        representable(53, 4 * v),
{
    let (m, f) = choose|m: nat, f: nat|
        #![trigger m * pow2(f)]
        m < pow2(53) && v == m * pow2(f);
    lemma2_to64();
    lemma_pow2_adds(2, f);
    lemma_representable(53, m, f + 2);
    assert(m * pow2(f + 2) == 4 * (m * pow2(f))) by (nonlinear_arith)
        requires
            pow2(f + 2) == 4 * pow2(f),
    ;
}

/// Time leaves of a count of at least one what lies above one, times the retained part,
/// and one; up to ten parts in `2^53` of the count.
pub proof fn law_time_keeps_a_part_of_what_lies_above_one(count: nat, retention: nat)
    requires
        count >= one(),
        retention <= one(),
    ensures
        is_near(
            decayed_count(count, retention) * one() * pow2(53) as int,
            (one() * one() + retention * (count - one())) * pow2(53),
            10 * count * one() as int,
        ),
{
    let u = one();
    let p = pow2(53);
    let above = (count - u) as nat;
    let x = distance(count, u);
    let kept = times(retention, x);
    let sum = plus(u, kept);
    lemma_places();
    lemma_pow2_pos(1074);
    lemma_round_relative(53, above, 1);
    lemma_round_relative(53, retention * x, u);
    lemma_round_relative(53, u + kept, 1);
    lemma_decay_close(
        count as int,
        retention as int,
        x as int,
        kept as int,
        sum as int,
        u as int,
        p as int,
    );
}

proof fn lemma_decay_close(n: int, r: int, x: int, k: int, s: int, u: int, p: int)
    requires
        1 <= p <= u <= n,
        0 <= r <= u,
        0 <= x,
        0 <= k,
        is_near(x * p, (n - u) * p, n - u),
        is_near((k * u) * p, (r * x) * p, r * x + p * u),
        is_near(s * p, (u + k) * p, u + k),
    ensures
        ({
            let d = if s <= n {
                s
            } else {
                n
            };
            is_near(d * u * p, (u * u + r * (n - u)) * p, 10 * n * u)
        }),
{
    let a = n - u;
    let e = r * a;
    let nu = n * u;
    assert(x <= 2 * n) by (nonlinear_arith)
        requires
            x * p <= a * p + a,
            0 <= a <= n,
            p >= 1,
    {
        assert(a <= a * p);
        assert(x * p <= (2 * n) * p);
    }
    assert(r * x <= 2 * nu && 0 <= r * x) by (nonlinear_arith)
        requires
            nu == n * u,
            0 <= r <= u,
            0 <= x <= 2 * n,
    {
        assert(r * x <= u * x);
        assert(u * x <= u * (2 * n));
    }
    assert(p * u <= nu) by (nonlinear_arith)
        requires
            nu == n * u,
            1 <= p <= n,
            u >= 0,
    ;
    assert(is_near((r * x) * p, e * p, nu)) by (nonlinear_arith)
        requires
            is_near(x * p, a * p, a),
            e == r * a,
            nu == n * u,
            0 <= a <= n,
            0 <= r <= u,
    {
        assert(r * (x * p) <= r * (a * p + a) && r * (a * p) <= r * (x * p + a));
        assert(r * (x * p) == (r * x) * p && r * (a * p) == e * p);
        assert(r * (a * p + a) == e * p + r * a && r * (x * p + a) == (r * x) * p + r * a);
        assert(r * a <= u * n);
    }
    let ku = k * u;
    assert(is_near(ku * p, e * p, 4 * nu));
    assert(e <= nu && 0 <= e) by (nonlinear_arith)
        requires
            e == r * a,
            nu == n * u,
            0 <= a <= n,
            0 <= r <= u,
    ;
    assert(ku <= 5 * nu) by (nonlinear_arith)
        requires
            ku * p <= e * p + 4 * nu,
            0 <= e <= nu,
            p >= 1,
    {
        assert(nu <= nu * p);
        assert(ku * p <= (5 * nu) * p);
    }
    assert(u * u <= nu) by (nonlinear_arith)
        requires
            nu == n * u,
            0 <= u <= n,
    ;
    assert(is_near((s * u) * p, (u * u + ku) * p, 6 * nu)) by (nonlinear_arith)
        requires
            is_near(s * p, (u + k) * p, u + k),
            ku == k * u,
            u * u <= nu,
            ku <= 5 * nu,
            u >= 0,
    {
        assert((s * p) * u <= ((u + k) * p + (u + k)) * u);
        assert(((u + k) * p) * u <= (s * p + (u + k)) * u);
        assert((s * p) * u == (s * u) * p);
        assert(((u + k) * p) * u == (u * u + ku) * p);
        assert((u + k) * u == u * u + ku);
        assert(((u + k) * p + (u + k)) * u == (u * u + ku) * p + (u * u + ku));
        assert((s * p + (u + k)) * u == (s * u) * p + (u * u + ku));
    }
    assert((u * u + ku) * p == (u * u) * p + ku * p && (u * u + e) * p == (u * u) * p + e * p)
        by (nonlinear_arith);
    assert(is_near((s * u) * p, (u * u + e) * p, 10 * nu));
    assert(10 * n * u == 10 * nu) by (nonlinear_arith)
        requires
            nu == n * u,
    ;
    if s > n {
        assert(u * u + e <= nu) by (nonlinear_arith)
            requires
                e == r * a,
                a == n - u,
                nu == n * u,
                0 <= r <= u,
                0 <= a,
        {
            assert(r * a <= u * a);
            assert(u * a == n * u - u * u);
        }
        assert((u * u + e) * p <= nu * p && nu * p <= (s * u) * p) by (nonlinear_arith)
            requires
                u * u + e <= nu,
                nu == n * u,
                n <= s,
                0 <= u,
                p >= 1,
        {
            assert(n * u <= s * u);
        }
    }
}

/// Time takes of a count below one the retained part of what is missing to one; up to a
/// few last places.
pub proof fn law_time_keeps_a_part_of_what_is_missing_to_one(count: nat, retention: nat)
    requires
        count < one(),
        retention <= one(),
    ensures
        is_near(
            decayed_count(count, retention) * one() as int,
            one() * one() - retention * (one() - count),
            3 * unit_place() * one() as int,
        ),
{
    let u = one();
    let h = unit_place();
    let x = distance(count, u);
    let kept = times(retention, x);
    lemma_pow2_pos(1074);
    assert(x == complement(count));
    lemma_unit_complement(count);
    lemma_unit_product(retention, x);
    lemma_unit_complement(kept);
    lemma_missing_close(
        count as int,
        retention as int,
        x as int,
        kept as int,
        complement(kept) as int,
        u as int,
        h as int,
    );
}

proof fn lemma_missing_close(n: int, r: int, x: int, k: int, y: int, u: int, h: int)
    requires
        0 <= n < u,
        0 <= r <= u,
        0 <= x,
        0 <= h,
        is_near(x + n, u, h),
        is_near(k * u, r * x, h * u),
        is_near(y + k, u, h),
    ensures
        ({
            let d = if y >= n {
                y
            } else {
                n
            };
            is_near(d * u, u * u - r * (u - n), 3 * h * u)
        }),
{
    let m = u - n;
    let e = r * m;
    let hu = h * u;
    assert(is_near(r * x, e, hu)) by (nonlinear_arith)
        requires
            is_near(x, m, h),
            e == r * m,
            hu == h * u,
            0 <= r <= u,
            h >= 0,
    {
        assert(r * x <= r * (m + h) && r * m <= r * (x + h));
        assert(r * (m + h) == e + r * h && r * (x + h) == r * x + r * h);
        assert(r * h <= u * h);
    }
    assert(is_near(y * u + k * u, u * u, hu)) by (nonlinear_arith)
        requires
            is_near(y + k, u, h),
            hu == h * u,
            u >= 0,
    {
        assert((y + k) * u <= (u + h) * u && u * u <= (y + k + h) * u);
        assert((y + k) * u == y * u + k * u && (u + h) * u == u * u + h * u);
        assert((y + k + h) * u == y * u + k * u + h * u);
    }
    assert(3 * h * u == 3 * hu) by (nonlinear_arith)
        requires
            hu == h * u,
    ;
    if y < n {
        assert(n * u <= u * u - e && y * u <= n * u) by (nonlinear_arith)
            requires
                e == r * m,
                m == u - n,
                0 <= r <= u,
                0 <= m,
                y < n,
        {
            assert(r * m <= u * m);
            assert(u * m == u * u - n * u);
        }
    }
}

/// Of what a grounded belief would lose, it loses one part in one plus its mass, up to a
/// few last places.
pub proof fn law_grounds_divide_what_is_lost(retention: nat, mass: nat)
    requires
        retention <= one(),
    ensures
        is_near(
            (one() - grounded_retention(retention, mass)) * (one() + mass),
            (one() - retention) * one(),
            8 * unit_place() * (one() + mass) as int,
        ),
{
    let u = one();
    let h = unit_place();
    let p = pow2(53);
    let all = u + mass;
    lemma_places();
    lemma_pow2_pos(1074);
    lemma_one_units();
    lemma_pattern_representable(ONE_BITS);
    assert(8 * h * all >= 0) by (nonlinear_arith)
        requires
            h >= 0,
            all >= 0,
    ;
    if mass > 0 {
        let c = complement(retention);
        let t = plus(u, mass);
        lemma_unit_complement(retention);
        lemma_round_relative(53, all, 1);
        lemma_round_at_least(53, all, 1, u);
        assert(c * u <= u * t) by (nonlinear_arith)
            requires
                c <= u,
                u <= t,
        ;
        let q = quotient(c, t);
        lemma_round_at_most(53, c * u, t, u);
        lemma_round_close(53, c * u, t, 1074);
        lemma_unit_complement(q);
        lemma_grounds_close(
            retention as int,
            c as int,
            t as int,
            q as int,
            complement(q) as int,
            all as int,
            u as int,
            h as int,
            p as int,
        );
    }
}

proof fn lemma_grounds_close(
    r: int,
    c: int,
    t: int,
    q: int,
    held: int,
    all: int,
    u: int,
    h: int,
    p: int,
)
    requires
        0 <= r <= u,
        0 < u <= all,
        0 <= h,
        0 < p,
        u == p * h,
        0 <= q <= u,
        0 <= t,
        is_near(c + r, u, h),
        is_near(t * p, all * p, all),
        is_near(q * t, c * u, h * t),
        is_near(held + q, u, h),
    ensures
        ({
            let d = if held < r {
                r
            } else {
                held
            };
            is_near((u - d) * all, (u - r) * u, 8 * h * all)
        }),
{
    let ha = h * all;
    assert(is_near(q * t, q * all, ha)) by (nonlinear_arith)
        requires
            is_near(t * p, all * p, all),
            0 <= q <= u,
            u == p * h,
            ha == h * all,
            p > 0,
            all >= 0,
    {
        assert(q * (t * p) <= q * (all * p + all) && q * (all * p) <= q * (t * p + all));
        assert(q * (all * p + all) == (q * all) * p + q * all);
        assert(q * (t * p + all) == (q * t) * p + q * all);
        assert(q * (t * p) == (q * t) * p && q * (all * p) == (q * all) * p);
        assert(q * all <= u * all);
        assert(u * all == ha * p);
        assert((q * t) * p <= (q * all + ha) * p);
        assert((q * all) * p <= (q * t + ha) * p);
    }
    assert(h * t <= 2 * ha) by (nonlinear_arith)
        requires
            t * p <= all * p + all,
            ha == h * all,
            p >= 1,
            h >= 0,
            all >= 0,
    {
        assert(all <= all * p);
        assert(t * p <= (2 * all) * p);
        assert(t <= 2 * all);
    }
    assert(is_near(c * u, (u - r) * u, ha)) by (nonlinear_arith)
        requires
            is_near(c, u - r, h),
            ha == h * all,
            0 <= u <= all,
            h >= 0,
    {
        assert(c * u <= (u - r + h) * u && (u - r) * u <= (c + h) * u);
        assert((u - r + h) * u == (u - r) * u + h * u && (c + h) * u == c * u + h * u);
        assert(h * u <= h * all);
    }
    assert(is_near((u - held) * all, q * all, ha)) by (nonlinear_arith)
        requires
            is_near(u - held, q, h),
            ha == h * all,
            all >= 0,
    {
        assert((u - held) * all <= (q + h) * all && q * all <= (u - held + h) * all);
        assert((q + h) * all == q * all + ha);
        assert((u - held + h) * all == (u - held) * all + ha);
    }
    assert(8 * h * all == 8 * ha && ha >= 0) by (nonlinear_arith)
        requires
            ha == h * all,
            h >= 0,
            all >= 0,
    ;
    if held < r {
        assert((u - r) * u <= (u - r) * all && (u - r) * all <= (u - held) * all)
            by (nonlinear_arith)
            requires
                held < r <= u,
                0 <= u <= all,
        ;
    }
}

/// Two beliefs contradict when their probabilities sum to more than one, up to a last place
/// of the sum, and never when they sum to one or less.
pub proof fn law_contradictions_sum_to_more_than_one(a: nat, b: nat)
    requires
        a <= one(),
        b <= one(),
    ensures
        a + b <= one() ==> plus(a, b) <= one(),
        a + b > one() + 2 * unit_place() ==> plus(a, b) > one(),
{
    lemma_one_units();
    lemma_pattern_representable(ONE_BITS);
    lemma2_to64();
    lemma_pow2_adds(1, 1074);
    lemma_pow2_adds(1, 1021);
    if a + b <= one() {
        lemma_round_at_most(53, a + b, 1, one());
    }
    lemma_round_close(53, a + b, 1, 1075);
}

} // verus!
