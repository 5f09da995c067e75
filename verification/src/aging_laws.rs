//! What time does to the mean and to the weight of a pair of counts.
use vstd::arithmetic::power2::*;
use vstd::prelude::*;

use crate::binary64::{
    distance, lemma_one_units, lemma_pattern_representable, one, pattern_units, plus, quotient,
    times, Binary64, ONE_BITS,
};
use crate::graph::{lemma_half_units, mean_of, HALF_BITS};
use crate::inference_laws::unit_place;
use crate::posterior::{decayed_count, law_time_does_not_pass_the_count};
use crate::rounding::{
    lemma_representable, lemma_round_at_least, lemma_round_at_most, lemma_round_close,
    lemma_round_monotone, lemma_round_relative, lemma_round_representable, lemma_round_zero,
    representable,
};

verus! {

/// Time takes away certainty: counts that sum to two or more do not sum to more
/// afterwards, and others to no more than two, but for nine parts in `2^53`. Where
/// both are at least one, the rounded sum does not grow at all.
pub proof fn law_time_does_not_add_weight(alpha: nat, beta: nat, retention: nat)
    requires
        retention <= one(),
    ensures
        (decayed_count(alpha, retention) + decayed_count(beta, retention)) * pow2(53)
            <= at_least_two(alpha + beta) * (pow2(53) + 9),
        alpha >= one() && beta >= one() ==> plus(
            decayed_count(alpha, retention),
            decayed_count(beta, retention),
        ) <= plus(alpha, beta),
{
    let (c, d) = (decayed_count(alpha, retention), decayed_count(beta, retention));
    law_time_does_not_pass_the_count(alpha, retention);
    law_time_does_not_pass_the_count(beta, retention);
    let g = pow2(53);
    let most = at_least_two(alpha + beta);
    lemma_parts();
    if alpha >= one() && beta < one() {
        lemma_mixed_weight(alpha, beta, retention);
    } else if beta >= one() && alpha < one() {
        lemma_mixed_weight(beta, alpha, retention);
        assert(c + d == d + c && alpha + beta == beta + alpha);
    } else {
        lemma_aged_sides(alpha, retention);
        lemma_aged_sides(beta, retention);
        lemma_round_monotone(53, c + d, 1, most, 1);
        assert((c + d) * g <= most * (g + 9)) by (nonlinear_arith)
            requires
                c + d <= most,
        ;
    }
}

/// A number, or two where that is greater.
pub open spec fn at_least_two(sum: nat) -> nat {
    if sum >= 2 * one() {
        sum
    } else {
        2 * one()
    }
}

/// The sum of a count of at least one and of one below it does not grow beyond two,
/// but for nine parts.
proof fn lemma_mixed_weight(a: nat, b: nat, retention: nat)
    requires
        a >= one(),
        b < one(),
        retention <= one(),
    ensures
        (decayed_count(a, retention) + decayed_count(b, retention)) * parts() <= at_least_two(
            a + b,
        ) * (parts() + 9),
{
    let u = one();
    let g = parts();
    let h = unit_place();
    let (c, d) = (decayed_count(a, retention), decayed_count(b, retention));
    let r = retention;
    lemma_parts();
    lemma_one_units();
    lemma_aged_close(a, r);
    lemma_small_aged_close(b, r);
    let ea = exact_aged(a, r);
    let eb = exact_aged(b, r);
    let s = a + b;
    let most = at_least_two(s);
    // Without rounding, what is left of both is no more than both, or two.
    assert(ea <= a * u) by (nonlinear_arith)
        requires
            ea == u * u + r * (a - u),
            a >= u,
            r <= u,
    {
        assert(r * (a - u) <= u * (a - u));
        assert(u * u + u * (a - u) == a * u);
    }
    assert(ea + eb == 2 * (u * u) + r * (s - 2 * u)) by (nonlinear_arith)
        requires
            ea == u * u + r * (a - u),
            eb == u * u + r * (b - u),
            s == a + b,
    ;
    if s >= 2 * u {
        assert(ea + eb <= most * u) by (nonlinear_arith)
            requires
                ea + eb == 2 * (u * u) + r * (s - 2 * u),
                most == s,
                s >= 2 * u,
                r <= u,
        {
            assert(r * (s - 2 * u) <= u * (s - 2 * u));
            assert(2 * (u * u) + u * (s - 2 * u) == s * u);
        }
    } else {
        assert(ea + eb <= most * u) by (nonlinear_arith)
            requires
                ea + eb == 2 * (u * u) + r * (s - 2 * u),
                most == 2 * u,
                s < 2 * u,
        {
            assert(r * (s - 2 * u) <= 0);
        }
    }
    assert((c + d) * g <= most * (g + 9)) by (nonlinear_arith)
        requires
            c * u * g <= (g + 7) * ea,
            d * u <= eb + 3 * h * u,
            ea <= a * u,
            a <= most,
            ea + eb <= most * u,
            u == g * h,
            2 * u <= most,
            u > 0,
    {
        assert((g + 7) * ea == g * ea + 7 * ea);
        assert((d * u) * g <= (eb + 3 * h * u) * g);
        assert((eb + 3 * h * u) * g == eb * g + 3 * u * (g * h));
        assert((c * u * g) + (d * u) * g == ((c + d) * g) * u);
        assert(g * ea + eb * g == (ea + eb) * g);
        assert((ea + eb) * g <= (most * u) * g);
        assert(a * u <= most * u);
        assert(7 * ea <= 7 * (most * u));
        assert(3 * u * u <= 2 * (most * u));
        assert(((c + d) * g) * u <= (most * u) * g + 9 * (most * u));
        assert((most * (g + 9)) * u == (most * u) * g + 9 * (most * u));
    }
}

/// Time moves the mean of two counts toward one half: it stays on its side of one
/// half, and gets no farther from it than it was, but for 32 of the last places of
/// the numbers up to one. Where the counts sum to less than one, the last places
/// weigh more in the mean by as much.
pub proof fn law_time_moves_the_mean_toward_half(alpha: Binary64, beta: Binary64, retention: nat)
    requires
        retention <= one(),
    ensures
        ({
            let half = pattern_units(HALF_BITS);
            let before = mean_of(alpha.units(), beta.units());
            let c = decayed_count(alpha.units(), retention);
            let d = decayed_count(beta.units(), retention);
            let after = mean_of(c, d);
            let slack = 32 * unit_place() * (c + d + one());
            &&& alpha.units() >= beta.units() ==> half <= after && after * (c + d) <= before * (c
                + d) + slack
            &&& alpha.units() <= beta.units() ==> after <= half && before * (c + d) <= after * (c
                + d) + slack
            &&& alpha.units() >= one() && alpha.units() >= beta.units() ==> after <= before + 32
                * unit_place()
            &&& beta.units() >= one() && alpha.units() <= beta.units() ==> before <= after + 32
                * unit_place()
        }),
{
    let (a, b) = (alpha.units(), beta.units());
    let (c, d) = (decayed_count(a, retention), decayed_count(b, retention));
    lemma_pattern_representable(alpha.bits);
    lemma_pattern_representable(beta.bits);
    lemma_aged_representable(alpha, retention);
    lemma_aged_representable(beta, retention);
    if a >= b {
        lemma_aged_order(b, a, retention);
        lemma_mean_at_least_half(c, d);
        lemma_greater_share_falls(a, b, retention);
    }
    if a <= b {
        lemma_aged_order(a, b, retention);
        lemma_mean_at_most_half(c, d);
        lemma_smaller_share_rises(a, b, retention);
    }
}

/// The mean of counts with no less in favour does not rise, but for last places.
proof fn lemma_greater_share_falls(a: nat, b: nat, retention: nat)
    requires
        b <= a,
        retention <= one(),
        representable(53, a),
        representable(53, b),
        representable(53, decayed_count(a, retention)),
        representable(53, decayed_count(b, retention)),
    ensures
        ({
            let c = decayed_count(a, retention);
            let d = decayed_count(b, retention);
            &&& mean_of(c, d) * (c + d) <= mean_of(a, b) * (c + d) + 32 * unit_place() * (c + d
                + one())
            &&& a >= one() ==> mean_of(c, d) <= mean_of(a, b) + 32 * unit_place()
        }),
{
    let (c, d) = (decayed_count(a, retention), decayed_count(b, retention));
    let u = one();
    let h = unit_place();
    lemma_parts();
    lemma_one_units();
    law_time_does_not_pass_the_count(a, retention);
    law_time_does_not_pass_the_count(b, retention);
    lemma_aged_sides(a, retention);
    lemma_aged_sides(b, retention);
    if a >= u {
        lemma_aged_close(a, retention);
        if b >= u {
            lemma_aged_close(b, retention);
            lemma_shares(a, b, c, d, retention);
        } else {
            lemma_mixed_shares(a, b, c, d);
        }
        lemma_means_ordered(c, d, a, b);
        lemma_scaled_bound(mean_of(c, d), mean_of(a, b), c + d, u, h);
    } else if a > 0 {
        lemma_small_aged_close(a, retention);
        lemma_small_aged_close(b, retention);
        lemma_small_shares(a, b, c, d, retention);
        lemma_small_means_fall(a, b, c, d);
    } else {
        lemma_mean_at_most_half(c, d);
        lemma_round_zero(53, 1);
        lemma_scaled_bound(mean_of(c, d), mean_of(a, b), c + d, u, h);
    }
}

/// The mean of counts with no more in favour does not fall, but for last places.
proof fn lemma_smaller_share_rises(a: nat, b: nat, retention: nat)
    requires
        a <= b,
        retention <= one(),
        representable(53, a),
        representable(53, b),
        representable(53, decayed_count(a, retention)),
        representable(53, decayed_count(b, retention)),
    ensures
        ({
            let c = decayed_count(a, retention);
            let d = decayed_count(b, retention);
            &&& mean_of(a, b) * (c + d) <= mean_of(c, d) * (c + d) + 32 * unit_place() * (c + d
                + one())
            &&& b >= one() ==> mean_of(a, b) <= mean_of(c, d) + 32 * unit_place()
        }),
{
    let (c, d) = (decayed_count(a, retention), decayed_count(b, retention));
    let u = one();
    let h = unit_place();
    lemma_parts();
    lemma_one_units();
    law_time_does_not_pass_the_count(a, retention);
    law_time_does_not_pass_the_count(b, retention);
    lemma_aged_sides(a, retention);
    lemma_aged_sides(b, retention);
    if b >= u {
        lemma_aged_close(b, retention);
        if a >= u {
            lemma_aged_close(a, retention);
            lemma_shares(b, a, d, c, retention);
        } else {
            lemma_mixed_shares(b, a, d, c);
        }
        lemma_other_share(a, b, c, d);
        lemma_means_ordered(a, b, c, d);
        lemma_scaled_bound(mean_of(a, b), mean_of(c, d), c + d, u, h);
    } else if b > 0 {
        lemma_small_aged_close(a, retention);
        lemma_small_aged_close(b, retention);
        lemma_small_shares(b, a, d, c, retention);
        lemma_small_means_rise(a, b, c, d);
    } else {
        lemma_aged_order(b, a, retention);
        lemma_mean_at_least_half(c, d);
        lemma_round_zero(53, 1);
        lemma_scaled_bound(mean_of(a, b), mean_of(c, d), c + d, u, h);
    }
}

proof fn lemma_scaled_bound(x: nat, y: nat, t: nat, u: nat, h: nat)
    requires
        x <= y + 32 * h,
    ensures
        x * t <= y * t + 32 * h * (t + u),
{
    assert(x * t <= y * t + 32 * h * (t + u)) by (nonlinear_arith)
        requires
            x <= y + 32 * h,
    {
        assert(x * t <= (y + 32 * h) * t);
        assert((y + 32 * h) * t == y * t + 32 * h * t);
        assert(32 * h * (t + u) == 32 * h * t + 32 * h * u);
        assert(32 * h * u >= 0);
    }
}

/// Time leaves a count on its side of one.
proof fn lemma_aged_sides(count: nat, retention: nat)
    requires
        retention <= one(),
    ensures
        count >= one() ==> decayed_count(count, retention) >= one(),
        count < one() ==> decayed_count(count, retention) <= one(),
{
    let kept = times(retention, distance(count, one()));
    lemma_one_units();
    lemma_pattern_representable(ONE_BITS);
    lemma_round_at_least(53, one() + kept, 1, one());
    if count < one() {
        lemma_small_kept(count, retention);
        lemma_round_at_most(53, (one() - kept) as nat, 1, one());
    }
}

/// What remains of the distance of a small count to one is at most one.
proof fn lemma_small_kept(count: nat, retention: nat)
    requires
        count < one(),
        retention <= one(),
    ensures
        distance(count, one()) <= one(),
        times(retention, distance(count, one())) <= one(),
{
    let away = distance(count, one());
    lemma_one_units();
    lemma_pattern_representable(ONE_BITS);
    lemma_round_at_most(53, (one() - count) as nat, 1, one());
    assert(retention * away <= one() * one()) by (nonlinear_arith)
        requires
            retention <= one(),
            away <= one(),
    ;
    lemma_round_at_most(53, retention * away, one(), one());
}

/// What time leaves of a count below one is exact to three places.
proof fn lemma_small_aged_close(count: nat, retention: nat)
    requires
        count < one(),
        retention <= one(),
    ensures
        decayed_count(count, retention) * one() <= exact_aged(count, retention) + 3 * unit_place()
            * one(),
        exact_aged(count, retention) <= decayed_count(count, retention) * one() + 3 * unit_place()
            * one(),
        exact_aged(count, retention) == one() * one() + retention * (count - one()),
        exact_aged(count, retention) >= count * one(),
{
    let u = one();
    let h = unit_place();
    let r = retention;
    let x = distance(count, u);
    let kept = times(r, x);
    let raw = distance(u, kept);
    let a = (u - count) as nat;
    lemma_parts();
    lemma_one_units();
    lemma_small_kept(count, retention);
    lemma_round_close(53, a, 1, 1074);
    assert(x <= a + h && a <= x + h);
    assert(r * x <= u * u) by (nonlinear_arith)
        requires
            r <= u,
            x <= u,
    ;
    lemma_round_close(53, r * x, u, 1074);
    lemma_round_close(53, (u - kept) as nat, 1, 1074);
    assert(raw + kept <= u + h && u <= raw + kept + h);
    let exact = u * u - r * a;
    assert(exact >= count * u) by (nonlinear_arith)
        requires
            exact == u * u - r * a,
            a == u - count,
            r <= u,
            count < u,
    {
        assert(r * a <= u * a);
        assert(u * a == u * u - count * u);
    }
    assert(r * (count - u) == -(r * a)) by (nonlinear_arith)
        requires
            a == u - count,
    ;
    assert(exact_aged(count, r) == exact);
    assert(raw * u <= exact + 3 * h * u && exact <= raw * u + 3 * h * u) by (nonlinear_arith)
        requires
            exact == u * u - r * a,
            x <= a + h,
            a <= x + h,
            kept * u <= r * x + h * u,
            r * x <= kept * u + h * u,
            raw + kept <= u + h,
            u <= raw + kept + h,
            r <= u,
    {
        assert(r * x <= r * (a + h) && r * a <= r * (x + h));
        assert(r * (a + h) == r * a + r * h && r * (x + h) == r * x + r * h);
        assert(r * h <= u * h);
        assert((raw + kept) * u <= (u + h) * u && u * u <= (raw + kept + h) * u);
        assert((raw + kept) * u == raw * u + kept * u);
        assert((raw + kept + h) * u == raw * u + kept * u + h * u);
        assert((u + h) * u == u * u + h * u);
        assert(3 * h * u == h * u + h * u + h * u);
    }
    assert(count * u <= exact + 3 * h * u) by (nonlinear_arith)
        requires
            exact >= count * u,
            h * u >= 0,
    ;
    if raw < count {
        assert(raw * u <= count * u) by (nonlinear_arith)
            requires
                raw < count,
        ;
    }
}

/// The share of a count of at least one beside one below it does not grow.
proof fn lemma_mixed_shares(a: nat, b: nat, c: nat, d: nat)
    requires
        c <= a,
        b <= d,
    ensures
        (c * b) * (parts() - 7) <= (parts() + 7) * (a * d),
        (c * (a + b)) * (parts() - 7) <= (parts() + 7) * (a * (c + d)),
{
    lemma_parts();
    let low = (parts() - 7) as nat;
    let high = parts() + 7;
    assert((c * b) * low <= high * (a * d)) by (nonlinear_arith)
        requires
            c <= a,
            b <= d,
            low <= high,
    {
        assert(c * b <= a * d);
        assert((c * b) * low <= (a * d) * low);
        assert((a * d) * low <= (a * d) * high);
    }
    assert((c * (a + b)) * low <= high * (a * (c + d))) by (nonlinear_arith)
        requires
            (c * b) * low <= high * (a * d),
            low <= high,
    {
        assert((c * (a + b)) * low == (c * a) * low + (c * b) * low);
        assert(high * (a * (c + d)) == high * (a * c) + high * (a * d));
        assert((c * a) * low <= high * (a * c));
    }
}

/// The share of the greater of two small counts does not grow, but for three places.
proof fn lemma_small_shares(a: nat, b: nat, c: nat, d: nat, retention: nat)
    requires
        b <= a,
        retention <= one(),
        exact_aged(a, retention) == one() * one() + retention * (a - one()),
        exact_aged(b, retention) == one() * one() + retention * (b - one()),
        c * one() <= exact_aged(a, retention) + 3 * unit_place() * one(),
        exact_aged(b, retention) <= d * one() + 3 * unit_place() * one(),
    ensures
        c * b <= a * d + 3 * unit_place() * (a + b),
{
    let u = one();
    let h = unit_place();
    let r = retention;
    lemma_one_units();
    let ea = exact_aged(a, r);
    let eb = exact_aged(b, r);
    lemma_exact_shares(a, b, ea, eb, r, u);
    let p = c * b;
    let q = a * d;
    assert(p * u <= (q + 3 * h * (a + b)) * u) by (nonlinear_arith)
        requires
            p == c * b,
            q == a * d,
            c * u <= ea + 3 * h * u,
            eb <= d * u + 3 * h * u,
            ea * b <= eb * a,
    {
        assert((c * u) * b <= (ea + 3 * h * u) * b);
        assert((c * u) * b == p * u);
        assert((ea + 3 * h * u) * b == ea * b + (3 * h * b) * u);
        assert(eb * a <= (d * u + 3 * h * u) * a);
        assert((d * u + 3 * h * u) * a == q * u + (3 * h * a) * u);
        assert((q + 3 * h * (a + b)) * u == q * u + (3 * h * a) * u + (3 * h * b) * u);
    }
    assert(p <= q + 3 * h * (a + b)) by (nonlinear_arith)
        requires
            p * u <= (q + 3 * h * (a + b)) * u,
            u > 0,
    ;
}

/// Without rounding, the greater count loses no less of its share.
proof fn lemma_exact_shares(a: nat, b: nat, ea: nat, eb: nat, r: nat, u: nat)
    requires
        ea == u * u + r * (a - u),
        eb == u * u + r * (b - u),
        b <= a,
        r <= u,
    ensures
        ea * b <= eb * a,
{
    assert(ea * b <= eb * a) by (nonlinear_arith)
        requires
            ea == u * u + r * (a - u),
            eb == u * u + r * (b - u),
            b <= a,
            r <= u,
    {
        let t = u * u - r * u;
        assert(t >= 0);
        assert(ea == t + r * a && eb == t + r * b);
        assert(t * b <= t * a);
        assert(ea * b == t * b + r * a * b && eb * a == t * a + r * b * a);
        assert(r * a * b == r * b * a);
    }
}

proof fn lemma_small_means_fall(a: nat, b: nat, c: nat, d: nat)
    requires
        representable(53, a),
        representable(53, b),
        representable(53, c),
        representable(53, d),
        a > 0,
        c >= a,
        c * b <= a * d + 3 * unit_place() * (a + b),
    ensures
        mean_of(c, d) * (c + d) <= mean_of(a, b) * (c + d) + 32 * unit_place() * (c + d + one()),
{
    let u = one();
    let h = unit_place();
    let (m, n) = (mean_of(a, b), mean_of(c, d));
    let s = a + b;
    let t = c + d;
    lemma_mean_near_share(a, b);
    lemma_mean_near_share(c, d);
    let x = n * t;
    let y = m * t;
    assert(x <= y + 5 * h * t + 3 * h * u) by (nonlinear_arith)
        requires
            x == n * t,
            y == m * t,
            x <= c * u + 2 * h * t,
            a * u <= (m + 3 * h) * s,
            c * b <= a * d + 3 * h * s,
            s == a + b,
            t == c + d,
            s > 0,
    {
        assert(c * s == c * a + c * b && a * t == a * c + a * d && c * a == a * c);
        assert(c * s <= a * t + 3 * h * s);
        assert((c * s) * u <= (a * t + 3 * h * s) * u);
        assert((a * t + 3 * h * s) * u == (a * u) * t + (3 * h * u) * s);
        assert((a * u) * t <= ((m + 3 * h) * s) * t);
        assert(((m + 3 * h) * s) * t == (y + 3 * h * t) * s) by {
            assert(((m + 3 * h) * s) * t == ((m + 3 * h) * t) * s);
            assert((m + 3 * h) * t == m * t + 3 * h * t);
        }
        assert((c * s) * u == (c * u) * s);
        assert((c * u) * s <= (y + 3 * h * t + 3 * h * u) * s);
        assert(c * u <= y + 3 * h * t + 3 * h * u);
        assert(5 * h * t == 3 * h * t + 2 * h * t);
    }
    lemma_slack_fits(h, t, u);
}

proof fn lemma_small_means_rise(a: nat, b: nat, c: nat, d: nat)
    requires
        representable(53, a),
        representable(53, b),
        representable(53, c),
        representable(53, d),
        b > 0,
        d >= b,
        d * a <= b * c + 3 * unit_place() * (b + a),
    ensures
        mean_of(a, b) * (c + d) <= mean_of(c, d) * (c + d) + 32 * unit_place() * (c + d + one()),
{
    let u = one();
    let h = unit_place();
    let (m, n) = (mean_of(a, b), mean_of(c, d));
    let s = a + b;
    let t = c + d;
    lemma_mean_near_share(a, b);
    lemma_mean_near_share(c, d);
    let x = n * t;
    let y = m * t;
    assert(a * t <= c * s + 3 * h * s) by (nonlinear_arith)
        requires
            d * a <= b * c + 3 * h * s,
            s == a + b,
            t == c + d,
    {
        assert(a * t == a * c + d * a && c * s == a * c + b * c);
    }
    assert(y * s <= (a * t) * u + (2 * h * t) * s) by (nonlinear_arith)
        requires
            y == m * t,
            m * s <= a * u + 2 * h * s,
    {
        assert((m * s) * t <= (a * u + 2 * h * s) * t);
        assert((a * u + 2 * h * s) * t == (a * t) * u + (2 * h * t) * s);
        assert((m * s) * t == y * s);
    }
    assert((a * t) * u <= (x + 3 * h * t) * s + (3 * h * u) * s) by (nonlinear_arith)
        requires
            x == n * t,
            a * t <= c * s + 3 * h * s,
            c * u <= (n + 3 * h) * t,
    {
        assert((a * t) * u <= (c * s + 3 * h * s) * u);
        assert((c * s + 3 * h * s) * u == (c * u) * s + (3 * h * u) * s);
        assert((c * u) * s <= ((n + 3 * h) * t) * s);
        assert((n + 3 * h) * t == x + 3 * h * t);
    }
    assert(y <= x + 5 * h * t + 3 * h * u) by (nonlinear_arith)
        requires
            y * s <= (x + 3 * h * t) * s + (3 * h * u) * s + (2 * h * t) * s,
            s > 0,
    {
        assert((x + 3 * h * t) * s + (3 * h * u) * s + (2 * h * t) * s == (x + 5 * h * t + 3 * h
            * u) * s);
    }
    lemma_slack_fits(h, t, u);
}

proof fn lemma_slack_fits(h: nat, t: nat, u: nat)
    ensures
        5 * h * t + 3 * h * u <= 32 * h * (t + u),
{
    assert(5 * h * t + 3 * h * u <= 32 * h * (t + u)) by (nonlinear_arith) {
        assert(32 * h * (t + u) == 32 * (h * t) + 32 * (h * u));
        assert(h * t >= 0 && h * u >= 0);
    }
}

/// One part of rounding: numbers are exact to one part in this.
spec fn parts() -> nat {
    pow2(53)
}

proof fn lemma_parts()
    ensures
        parts() == 0x0020_0000_0000_0000,
        one() == parts() * unit_place(),
        unit_place() > 0,
        (parts() + parts()) * one() <= one() * one(),
{
    lemma2_to64();
    lemma2_to64_rest();
    lemma_pow2_adds(53, 1021);
    lemma_pow2_pos(1021);
    lemma_pow2_strictly_increases(54, 1074);
    assert((parts() + parts()) * one() <= one() * one()) by (nonlinear_arith)
        requires
            parts() + parts() <= one(),
    ;
}

/// The exact value, times one, of what time leaves of a count.
spec fn exact_aged(count: nat, retention: nat) -> nat {
    (one() * one() + retention * (count - one())) as nat
}

proof fn lemma_aged_representable(count: Binary64, retention: nat)
    ensures
        representable(53, decayed_count(count.units(), retention)),
{
    let kept = times(retention, distance(count.units(), one()));
    let gap: nat = if one() >= kept {
        (one() - kept) as nat
    } else {
        (kept - one()) as nat
    };
    lemma_pattern_representable(count.bits);
    lemma_round_representable(53, one() + kept, 1);
    lemma_round_representable(53, gap, 1);
}

/// Of two counts, time leaves no less of the greater one.
proof fn lemma_aged_order(a: nat, b: nat, retention: nat)
    requires
        a <= b,
        retention <= one(),
    ensures
        decayed_count(a, retention) <= decayed_count(b, retention),
{
    lemma_one_units();
    let x = distance(a, one());
    let y = distance(b, one());
    if a >= one() {
        lemma_round_monotone(53, (a - one()) as nat, 1, (b - one()) as nat, 1);
        lemma_kept_order(x, y, retention);
        lemma_round_monotone(53, one() + times(retention, x), 1, one() + times(retention, y), 1);
    } else if b < one() {
        lemma_round_monotone(53, (one() - b) as nat, 1, (one() - a) as nat, 1);
        lemma_kept_order(y, x, retention);
        lemma_small_kept(a, retention);
        lemma_round_monotone(
            53,
            (one() - times(retention, x)) as nat,
            1,
            (one() - times(retention, y)) as nat,
            1,
        );
    } else {
        lemma_aged_sides(a, retention);
        lemma_aged_sides(b, retention);
    }
}

proof fn lemma_kept_order(x: nat, y: nat, retention: nat)
    requires
        x <= y,
    ensures
        times(retention, x) <= times(retention, y),
{
    lemma_one_units();
    assert((retention * x) * one() <= (retention * y) * one()) by (nonlinear_arith)
        requires
            x <= y,
    {
        assert(retention * x <= retention * y);
    }
    lemma_round_monotone(53, retention * x, one(), retention * y, one());
}

/// What time leaves of a count is exact to seven parts.
proof fn lemma_aged_close(count: nat, retention: nat)
    requires
        count >= one(),
        retention <= one(),
    ensures
        decayed_count(count, retention) * one() * parts() <= (parts() + 7) * exact_aged(
            count,
            retention,
        ),
        (parts() - 7) * exact_aged(count, retention) <= decayed_count(count, retention) * one()
            * parts(),
{
    let u = one();
    let g = parts();
    let a = (count - u) as nat;
    let r = retention;
    let x = distance(count, u);
    let kept = times(r, x);
    let sum = plus(u, kept);
    lemma_parts();
    lemma_one_units();
    lemma_round_relative(53, a, 1);
    assert(x * 1 == x);
    lemma_round_relative(53, r * x, u);
    lemma_round_relative(53, u + kept, 1);
    assert(sum * 1 == sum);
    let ra = r * a;
    let rx = r * x;
    let ku = kept * u;
    let uu = u * u;
    // The distance to one, scaled.
    assert(rx * g <= ra * g + ra && ra * g <= rx * g + ra) by (nonlinear_arith)
        requires
            rx == r * x,
            ra == r * a,
            x * g <= a * g + a,
            a * g <= x * g + a,
    {
        assert(r * (x * g) <= r * (a * g + a) && r * (a * g) <= r * (x * g + a));
        assert(r * (x * g) == rx * g && r * (a * g + a) == ra * g + ra);
        assert(r * (a * g) == ra * g && r * (x * g + a) == rx * g + ra);
    }
    assert(rx <= 2 * ra) by (nonlinear_arith)
        requires
            rx * g <= ra * g + ra,
            g == 0x0020_0000_0000_0000,
    ;
    // What is kept of it.
    assert(ku * g <= ra * g + 3 * ra + g * u && ra * g <= ku * g + 3 * ra + g * u);
    assert(ku <= 4 * ra + u) by (nonlinear_arith)
        requires
            ku * g <= ra * g + 3 * ra + g * u,
            g == 0x0020_0000_0000_0000,
    ;
    // Added to one.
    let su = sum * u;
    assert((u + kept) * u == uu + ku) by (nonlinear_arith)
        requires
            uu == u * u,
            ku == kept * u,
    ;
    assert(su * g <= (uu + ku) * g + uu + ku && (uu + ku) * g <= su * g + uu + ku)
        by (nonlinear_arith)
        requires
            su == sum * u,
            (u + kept) * u == uu + ku,
            sum * g <= (u + kept) * g + (u + kept),
            (u + kept) * g <= sum * g + (u + kept),
    {
        assert((sum * g) * u == su * g);
        assert(((u + kept) * g + (u + kept)) * u == ((u + kept) * u) * g + (u + kept) * u);
        assert(((u + kept) * g) * u == ((u + kept) * u) * g);
        assert((sum * g + (u + kept)) * u == su * g + (u + kept) * u);
        assert((sum * g) * u <= ((u + kept) * g + (u + kept)) * u);
        assert(((u + kept) * g) * u <= (sum * g + (u + kept)) * u);
    }
    let exact = exact_aged(count, r);
    assert(exact == uu + ra);
    assert((uu + ku) * g == uu * g + ku * g && (uu + ra) * g == uu * g + ra * g) by (nonlinear_arith);
    assert((g + g) * u == 2 * (g * u)) by (nonlinear_arith);
    assert(u <= g * u) by (nonlinear_arith)
        requires
            g == 0x0020_0000_0000_0000,
    ;
    assert(su * g <= exact * g + 7 * exact && exact * g <= su * g + 7 * exact);
    assert((g + 7) * exact == exact * g + 7 * exact && (g - 7) * exact == exact * g - 7 * exact)
        by (nonlinear_arith);
    // The count itself is no less than what is left of it exactly.
    assert(exact <= count * u) by (nonlinear_arith)
        requires
            exact == uu + ra,
            uu == u * u,
            ra == r * a,
            a == count - u,
            r <= u,
    {
        assert(r * a <= u * a);
        assert(u * u + u * a == count * u);
    }
    assert(exact * g <= (count * u) * g) by (nonlinear_arith)
        requires
            exact <= count * u,
    ;
    if sum > count {
        assert(count * u <= su) by (nonlinear_arith)
            requires
                su == sum * u,
                count <= sum,
        ;
        assert((count * u) * g <= su * g) by (nonlinear_arith)
            requires
                count * u <= su,
        ;
    }
}

/// The share of the greater count does not grow, but for fourteen parts.
proof fn lemma_shares(a: nat, b: nat, c: nat, d: nat, retention: nat)
    requires
        one() <= b <= a,
        retention <= one(),
        c == decayed_count(a, retention),
        d == decayed_count(b, retention),
        c * one() * parts() <= (parts() + 7) * exact_aged(a, retention),
        (parts() - 7) * exact_aged(b, retention) <= d * one() * parts(),
    ensures
        (c * b) * (parts() - 7) <= (parts() + 7) * (a * d),
        (c * (a + b)) * (parts() - 7) <= (parts() + 7) * (a * (c + d)),
{
    let u = one();
    let g = parts();
    lemma_parts();
    lemma_one_units();
    let ea = exact_aged(a, retention);
    let eb = exact_aged(b, retention);
    let r = retention;
    let low = (g - 7) as nat;
    let high = g + 7;
    lemma_exact_shares(a, b, ea, eb, r, u);
    let ug = u * g;
    assert(ug > 0) by (nonlinear_arith)
        requires
            ug == u * g,
            u > 0,
            g > 0,
    ;
    assert((c * b) * ug <= high * (ea * b)) by (nonlinear_arith)
        requires
            ug == u * g,
            c * u * g <= high * ea,
    {
        assert((c * u * g) * b <= (high * ea) * b);
        assert((c * u * g) * b == (c * b) * (u * g));
        assert((high * ea) * b == high * (ea * b));
    }
    assert(high * (ea * b) <= high * (eb * a)) by (nonlinear_arith)
        requires
            ea * b <= eb * a,
    ;
    assert(low * (eb * a) <= (a * d) * ug) by (nonlinear_arith)
        requires
            ug == u * g,
            low * eb <= d * u * g,
    {
        assert((low * eb) * a <= (d * u * g) * a);
        assert((low * eb) * a == low * (eb * a));
        assert((d * u * g) * a == (a * d) * (u * g));
    }
    let p = c * b;
    let q = eb * a;
    let w = a * d;
    assert(p * low <= high * w) by (nonlinear_arith)
        requires
            p * ug <= high * q,
            low * q <= w * ug,
            ug > 0,
    {
        assert((p * ug) * low <= (high * q) * low);
        assert((high * q) * low == high * (low * q));
        assert(high * (low * q) <= high * (w * ug));
        assert((p * ug) * low == (p * low) * ug);
        assert(high * (w * ug) == (high * w) * ug);
    }
    assert((c * (a + b)) * low <= high * (a * (c + d))) by (nonlinear_arith)
        requires
            (c * b) * low <= high * (a * d),
            low <= high,
    {
        assert((c * (a + b)) * low == (c * a) * low + (c * b) * low);
        assert(high * (a * (c + d)) == high * (a * c) + high * (a * d));
        assert((c * a) * low <= high * (a * c));
    }
}

/// Where the share of one count does not grow, that of the other does not shrink.
proof fn lemma_other_share(a: nat, b: nat, c: nat, d: nat)
    requires
        (d * a) * (parts() - 7) <= (parts() + 7) * (b * c),
    ensures
        (a * (c + d)) * (parts() - 7) <= (parts() + 7) * (c * (a + b)),
{
    lemma_parts();
    let low = (parts() - 7) as nat;
    let high = parts() + 7;
    assert((a * (c + d)) * low <= high * (c * (a + b))) by (nonlinear_arith)
        requires
            (d * a) * low <= high * (b * c),
            low <= high,
    {
        assert((a * (c + d)) * low == (a * c) * low + (d * a) * low);
        assert(high * (c * (a + b)) == high * (a * c) + high * (b * c));
        assert((a * c) * low <= high * (a * c));
    }
}

/// A mean is the exact share, but for three places.
proof fn lemma_mean_near_share(a: nat, b: nat)
    requires
        representable(53, a),
        representable(53, b),
        a + b > 0,
    ensures
        mean_of(a, b) <= one(),
        a * one() <= (mean_of(a, b) + 3 * unit_place()) * (a + b),
        mean_of(a, b) * (a + b) <= a * one() + 2 * unit_place() * (a + b),
{
    let u = one();
    let h = unit_place();
    let g = parts();
    let s = a + b;
    let t = plus(a, b);
    let m = mean_of(a, b);
    lemma_parts();
    lemma_one_units();
    lemma_pattern_representable(ONE_BITS);
    lemma_round_at_least(53, s, 1, a);
    lemma_round_at_least(53, s, 1, b);
    lemma_round_relative(53, s, 1);
    assert(t * 1 == t);
    assert(m == quotient(a, t));
    assert(a * u <= u * t) by (nonlinear_arith)
        requires
            a <= t,
    ;
    lemma_round_at_most(53, a * u, t, u);
    lemma_round_close(53, a * u, t, 1074);
    // The mean from below.
    assert(a * u <= (m + 3 * h) * s) by (nonlinear_arith)
        requires
            a * u <= m * t + h * t,
            t * g <= s * g + s,
            m <= u,
            u == g * h,
            h <= u,
            g == 0x0020_0000_0000_0000,
    {
        let k = m + h;
        assert(a * u <= k * t);
        assert((a * u) * g <= (k * t) * g);
        assert((k * t) * g == k * (t * g));
        assert(k * (t * g) <= k * (s * g + s));
        assert(k * (s * g + s) == k * s * g + k * s);
        assert(k <= 2 * (g * h));
        assert(k * s <= 2 * (g * h) * s);
        assert(2 * (g * h) * s == (2 * h * s) * g);
        assert((a * u) * g <= (k * s + 2 * h * s) * g);
        assert(a * u <= k * s + 2 * h * s);
        assert((m + 3 * h) * s == k * s + 2 * h * s);
    }
    // The mean from above.
    assert(m * s <= a * u + 2 * h * s) by (nonlinear_arith)
        requires
            m * t <= a * u + h * t,
            s * g <= t * g + s,
            m <= u,
            u == g * h,
            a * u >= 0,
            g == 0x0020_0000_0000_0000,
    {
        if m > h {
            let k = (m - h) as int;
            assert(k * t <= a * u);
            assert((k * t) * g <= (a * u) * g);
            assert((k * t) * g == k * (t * g));
            assert(k * (s * g) <= k * (t * g + s));
            assert(k * (t * g + s) == k * (t * g) + k * s);
            assert(k * s <= (g * h) * s);
            assert(k * (s * g) == (k * s) * g);
            assert((g * h) * s == (h * s) * g);
            assert((k * s) * g <= (a * u + h * s) * g);
            assert(k * s <= a * u + h * s);
            assert(m * s == k * s + h * s);
        } else {
            assert(m * s <= h * s);
        }
    }
}

/// Means are ordered as the exact shares, but for 32 places.
proof fn lemma_means_ordered(a: nat, b: nat, c: nat, d: nat)
    requires
        representable(53, a),
        representable(53, b),
        representable(53, c),
        representable(53, d),
        a + b > 0,
        c + d > 0,
        (a * (c + d)) * (parts() - 7) <= (parts() + 7) * (c * (a + b)),
    ensures
        mean_of(a, b) <= mean_of(c, d) + 32 * unit_place(),
{
    let u = one();
    let h = unit_place();
    let g = parts();
    let m = mean_of(a, b);
    let n = mean_of(c, d);
    let s = a + b;
    let t = c + d;
    let low = (g - 7) as nat;
    let high = g + 7;
    lemma_parts();
    lemma_one_units();
    lemma_mean_near_share(a, b);
    lemma_mean_near_share(c, d);
    if m > 2 * h {
        let k = (m - 2 * h) as nat;
        let l = n + 3 * h;
        assert(k * s <= a * u) by (nonlinear_arith)
            requires
                k == m - 2 * h,
                m * s <= a * u + 2 * h * s,
        ;
        assert(k * low <= high * l) by (nonlinear_arith)
            requires
                k * s <= a * u,
                c * u <= l * t,
                (a * t) * low <= high * (c * s),
                s > 0,
                t > 0,
                u > 0,
        {
            assert((k * s) * t * low <= (a * u) * t * low);
            assert((a * u) * t * low == u * ((a * t) * low));
            assert(u * ((a * t) * low) <= u * (high * (c * s)));
            assert(u * (high * (c * s)) == high * (c * u) * s);
            assert(high * (c * u) * s <= high * (l * t) * s);
            assert((k * s) * t * low == (k * low) * (s * t));
            assert(high * (l * t) * s == (high * l) * (s * t));
            assert(s * t > 0);
            assert((k * low) * (s * t) <= (high * l) * (s * t));
        }
        assert(k <= l + 15 * h) by (nonlinear_arith)
            requires
                k * low <= high * l,
                low == g - 7,
                high == g + 7,
                l <= g * h + 3 * h,
                g == 0x0020_0000_0000_0000,
        {
            assert(high * l == low * l + 14 * l);
            assert(14 * l <= 14 * (g * h) + 42 * h);
            assert(14 * (g * h) + 42 * h <= low * (15 * h));
            assert((l + 15 * h) * low == low * l + low * (15 * h));
            assert(k * low <= (l + 15 * h) * low);
        }
    }
}

/// Where there is no less in favour than against, the mean is at least one half.
proof fn lemma_mean_at_least_half(a: nat, b: nat)
    requires
        representable(53, a),
        b <= a,
    ensures
        pattern_units(HALF_BITS) <= mean_of(a, b),
{
    let u = one();
    let half = pattern_units(HALF_BITS);
    lemma_one_units();
    lemma_half_units();
    lemma_doubled(a);
    let t = plus(a, b);
    lemma_round_at_most(53, a + b, 1, 2 * a);
    lemma_round_at_least(53, a + b, 1, a);
    lemma_pattern_representable(HALF_BITS);
    assert(half * t <= a * u) by (nonlinear_arith)
        requires
            t <= 2 * a,
            2 * half == u,
    ;
    if t > 0 {
        lemma_round_at_least(53, a * u, t, half);
    }
}

/// Where there is no more in favour than against, the mean is at most one half.
proof fn lemma_mean_at_most_half(a: nat, b: nat)
    requires
        representable(53, a),
        a <= b,
    ensures
        mean_of(a, b) <= pattern_units(HALF_BITS),
{
    let u = one();
    let half = pattern_units(HALF_BITS);
    lemma_one_units();
    lemma_half_units();
    lemma_doubled(a);
    let t = plus(a, b);
    lemma_round_at_least(53, a + b, 1, 2 * a);
    lemma_pattern_representable(HALF_BITS);
    assert(a * u <= half * t) by (nonlinear_arith)
        requires
            2 * a <= t,
            2 * half == u,
    ;
    if t > 0 {
        lemma_round_at_most(53, a * u, t, half);
    }
}

/// Twice a value of the format is one.
proof fn lemma_doubled(v: nat)
    requires
        representable(53, v),
    ensures
        representable(53, 2 * v),
{
    let (m, f) = choose|m: nat, f: nat|
        #![trigger m * pow2(f)]
        m < pow2(53) && v == m * pow2(f);
    lemma_pow2_unfold(f + 1);
    assert(m * pow2(f + 1) == 2 * v) by (nonlinear_arith)
        requires
            v == m * pow2(f),
            pow2(f + 1) == 2 * pow2(f),
    ;
    lemma_representable(53, m, f + 1);
}

} // verus!
