//! What floating-point numbers stand for and how results are rounded to them.
use vstd::arithmetic::div_mod::*;
use vstd::arithmetic::mul::*;
use vstd::arithmetic::power2::*;
use vstd::prelude::*;

use crate::binary32::{infinite_units, single_over_whole, single_plus, single_units, Binary32};
use crate::binary64::{
    complement, distance, greatest, one, pattern_units, plus, quotient, times, Binary64,
};
use crate::rounding::{
    excess_bits, lemma_bit_length_bounds, lemma_excess_bits, lemma_multiple_of_spacing,
    lemma_nearest_even_bounds, nearest_even, representable, round_to_precision,
};

verus! {

/// How far two numbers are apart.
pub open spec fn apart(a: int, b: int) -> int {
    if a >= b {
        a - b
    } else {
        b - a
    }
}

proof fn lemma_multiple_is_no_nearer(num: nat, t: nat, m: nat, w: nat)
    requires
        2 * num <= (2 * m + 1) * t,
        2 * m * t <= 2 * num + t,
    ensures
        apart((m * t) as int, num as int) <= apart((w * t) as int, num as int),
{
    assert(2 * (m * t) <= 2 * num + t && 2 * num <= 2 * (m * t) + t) by (nonlinear_arith)
        requires
            2 * num <= (2 * m + 1) * t,
            2 * m * t <= 2 * num + t,
    ;
    if w < m {
        assert(w * t + t <= m * t) by (nonlinear_arith)
            requires
                w + 1 <= m,
        ;
    } else if w > m {
        assert(m * t + t <= w * t) by (nonlinear_arith)
            requires
                m + 1 <= w,
        ;
    }
}

/// An exact result is rounded to the number that is nearest to it: no number of the format
/// is nearer.
pub proof fn law_rounding_finds_the_nearest(prec: nat, num: nat, den: nat, v: nat)
    requires
        prec > 0,
        den > 0,
        representable(prec, v),
    ensures
        representable(prec, round_to_precision(prec, num, den)),
        apart((round_to_precision(prec, num, den) * den) as int, num as int) <= apart(
            (v * den) as int,
            num as int,
        ),
{
    crate::rounding::lemma_round_representable(prec, num, den);
    let e = excess_bits(prec, num, den);
    let s = pow2(e);
    let t = den * s;
    lemma_pow2_pos(e);
    assert(t > 0) by (nonlinear_arith)
        requires
            t == den * s,
            den > 0,
            s > 0,
    ;
    let m = nearest_even(num, t);
    let r = round_to_precision(prec, num, den);
    lemma_nearest_even_bounds(num, t);
    assert(r * den == m * t) by (nonlinear_arith)
        requires
            r == m * s,
            t == den * s,
    ;
    if e > 0 && v < pow2((prec + e - 1) as nat) {
        lemma_excess_bits(prec, num, den);
        lemma_pow2_adds((prec - 1) as nat, e);
        let lead = pow2((prec + e - 1) as nat);
        let w = pow2((prec - 1) as nat);
        lemma_multiple_is_no_nearer(num, t, m, w);
        assert(w * t == lead * den) by (nonlinear_arith)
            requires
                lead == w * s,
                t == den * s,
        ;
        assert(v * den <= lead * den) by (nonlinear_arith)
            requires
                v <= lead,
        ;
    } else {
        lemma_multiple_of_spacing(prec, v, e);
        let w = choose|w: nat| v == #[trigger] (w * pow2(e));
        lemma_multiple_is_no_nearer(num, t, m, w);
        assert(w * t == v * den) by (nonlinear_arith)
            requires
                v == w * s,
                t == den * s,
        ;
    }
}

/// What is rounded has as many places as the format, counted from the first one; half of
/// the last place goes to the even neighbour.
pub proof fn law_halves_are_rounded_to_even(prec: nat, num: nat, den: nat)
    requires
        prec > 0,
        den > 0,
    ensures
        exists|m: nat, e: nat|
            #![trigger m * pow2(e)]
            {
                &&& round_to_precision(prec, num, den) == m * pow2(e)
                &&& e > 0 ==> pow2((prec + e - 1) as nat) * den <= num
                &&& num < pow2(prec + e) * den
                &&& 2 * apart((m * (den * pow2(e))) as int, num as int) <= den * pow2(e)
                &&& 2 * apart((m * (den * pow2(e))) as int, num as int) == den * pow2(e) ==> m % 2
                    == 0
            },
{
    let e = excess_bits(prec, num, den);
    let s = pow2(e);
    let t = den * s;
    lemma_pow2_pos(e);
    assert(t > 0) by (nonlinear_arith)
        requires
            t == den * s,
            den > 0,
            s > 0,
    ;
    let m = nearest_even(num, t);
    if e > 0 {
        lemma_excess_bits(prec, num, den);
    }
    let q = num / den;
    lemma_fundamental_div_mod(num as int, den as int);
    lemma_mod_bound(num as int, den as int);
    let top = pow2(prec + e);
    assert(q < top) by {
        if q > 0 {
            lemma_bit_length_bounds(q);
            let len = crate::rounding::bit_length(q);
            assert(len <= prec + e);
            if len < prec + e {
                lemma_pow2_strictly_increases(len, prec + e);
            }
        } else {
            lemma_pow2_pos(prec + e);
        }
    }
    lemma_mul_inequality((q + 1) as int, top as int, den as int);
    lemma_mul_is_distributive_add_other_way(den as int, q as int, 1);
    lemma_mul_is_commutative(den as int, q as int);
    assert(num < top * den);
    let k = num / t;
    let r = num % t;
    lemma_fundamental_div_mod(num as int, t as int);
    lemma_mod_bound(num as int, t as int);
    if m == k {
        assert(m * t == num - r) by (nonlinear_arith)
            requires
                num == t * k + r,
                m == k,
        ;
    } else {
        assert(m * t == num - r + t) by (nonlinear_arith)
            requires
                num == t * k + r,
                m == k + 1,
        ;
        if 2 * r == t {
            assert(k % 2 != 0);
        }
    }
    assert(round_to_precision(prec, num, den) == m * pow2(e));
}

/// Sums, products, quotients and distances are the numbers nearest to the exact ones.
pub proof fn law_results_are_the_nearest_numbers(a: nat, b: nat, v: nat)
    requires
        representable(53, v),
    ensures
        apart(plus(a, b) as int, (a + b) as int) <= apart(v as int, (a + b) as int),
        apart(distance(a, b) as int, apart(a as int, b as int)) <= apart(
            v as int,
            apart(a as int, b as int),
        ),
        apart(complement(a) as int, apart(one() as int, a as int)) <= apart(
            v as int,
            apart(one() as int, a as int),
        ),
        apart((times(a, b) * one()) as int, (a * b) as int) <= apart(
            (v * one()) as int,
            (a * b) as int,
        ),
        b > 0 ==> apart((quotient(a, b) * b) as int, (a * one()) as int) <= apart(
            (v * b) as int,
            (a * one()) as int,
        ),
{
    lemma_pow2_pos(1074);
    let d = apart(a as int, b as int) as nat;
    let c = apart(one() as int, a as int) as nat;
    law_rounding_finds_the_nearest(53, a + b, 1, v);
    law_rounding_finds_the_nearest(53, d, 1, v);
    law_rounding_finds_the_nearest(53, c, 1, v);
    law_rounding_finds_the_nearest(53, a * b, one(), v);
    if b > 0 {
        law_rounding_finds_the_nearest(53, a * one(), b, v);
    }
}

/// The same in single precision, as far as there are numbers.
pub proof fn law_single_results_are_the_nearest_numbers(a: nat, b: nat, v: nat)
    requires
        representable(24, v),
    ensures
        single_plus(a, b) < infinite_units() ==> apart(
            single_plus(a, b) as int,
            (a + b) as int,
        ) <= apart(v as int, (a + b) as int),
        single_plus(a, b) <= infinite_units(),
        b > 0 ==> apart((single_over_whole(a, b) * b) as int, a as int) <= apart(
            (v * b) as int,
            a as int,
        ),
{
    law_rounding_finds_the_nearest(24, a + b, 1, v);
    if b > 0 {
        law_rounding_finds_the_nearest(24, a, b, v);
    }
}

/// The pattern zero stands for zero, and each further one for a number that is larger by
/// the last place: the unit below twice the smallest normal number, and twice as much for
/// each further exponent.
pub proof fn law_patterns_rise_by_their_last_place(bits: u64)
    requires
        bits < 0x7FF0_0000_0000_0000,
    ensures
        pattern_units(0) == 0,
        pattern_units((bits + 1) as u64) == pattern_units(bits) + pow2(
            if bits < 0x0020_0000_0000_0000 {
                0
            } else {
                (bits as nat / 0x0010_0000_0000_0000 - 1) as nat
            },
        ),
        pattern_units(0x3FF0_0000_0000_0000) == pow2(1074),
{
    crate::binary64::lemma_one_units();
    lemma2_to64();
    let limit: nat = 0x0010_0000_0000_0000;
    let e = bits as nat / limit;
    let f = bits as nat % limit;
    let next = (bits + 1) as u64;
    if f + 1 < limit {
        assert(next as nat / limit == e && next as nat % limit == f + 1);
        if e > 0 {
            let p = pow2((e - 1) as nat);
            assert((limit + (f + 1)) * p == (limit + f) * p + p) by (nonlinear_arith);
        }
    } else {
        assert(next as nat / limit == e + 1 && next as nat % limit == 0);
        if e > 0 {
            let p = pow2((e - 1) as nat);
            lemma_pow2_unfold(e);
            assert((limit + 0) * (2 * p) == (limit + f) * p + p) by (nonlinear_arith)
                requires
                    f + 1 == limit,
            ;
        }
    }
}

/// The same of single precision; the pattern of infinity follows on the greatest number.
pub proof fn law_single_patterns_rise_by_their_last_place(bits: u32)
    requires
        bits < 0x7F80_0000,
    ensures
        single_units(0) == 0,
        single_units((bits + 1) as u32) == single_units(bits) + pow2(
            if bits < 0x0100_0000 {
                0
            } else {
                (bits as nat / 0x0080_0000 - 1) as nat
            },
        ),
        single_units(0x7F80_0000) == infinite_units(),
{
    lemma2_to64();
    let limit: nat = 0x0080_0000;
    let e = bits as nat / limit;
    let f = bits as nat % limit;
    let next = (bits + 1) as u32;
    assert(bits < 0x0100_0000 <==> e <= 1);
    assert(pow2(0) == 1);
    lemma_pow2_adds(23, 254);
    if f + 1 < limit {
        assert(next as nat / limit == e && next as nat % limit == f + 1);
        if e > 0 {
            let p = pow2((e - 1) as nat);
            assert((limit + (f + 1)) * p == (limit + f) * p + p) by (nonlinear_arith);
        }
    } else {
        assert(next as nat / limit == e + 1 && next as nat % limit == 0);
        if e > 0 {
            let p = pow2((e - 1) as nat);
            lemma_pow2_unfold(e);
            assert((limit + 0) * (2 * p) == (limit + f) * p + p) by (nonlinear_arith)
                requires
                    f + 1 == limit,
            ;
        }
    }
}

/// A pattern is a finite number, an infinity or no number; the first bit is the sign, which
/// changes nothing else.
pub proof fn law_patterns_are_numbers_or_none(v: Binary64)
    ensures
        v.is_finite() ==> !v.is_nan() && apart(v.value(), 0) <= greatest(),
        !v.is_nan() && !v.is_finite() <==> v.bits == 0x7FF0_0000_0000_0000 || v.bits
            == 0xFFF0_0000_0000_0000,
        !v.is_nan() && !v.is_finite() ==> apart(v.value(), 0) > greatest(),
        !v.is_negative() ==> {
            let w = Binary64 { bits: (v.bits + 0x8000_0000_0000_0000) as u64 };
            &&& w.is_negative()
            &&& w.value() == -v.value()
            &&& w.is_nan() == v.is_nan()
            &&& w.is_finite() == v.is_finite()
        },
        !v.is_negative() ==> v.value() == v.units(),
        v.in_unit_range() <==> !v.is_negative() && !v.is_nan() && v.value() <= one(),
{
    crate::binary64::lemma_one_units();
    let p = v.pattern();
    if p < 0x7FEF_FFFF_FFFF_FFFF {
        crate::binary64::lemma_pattern_order(p, 0x7FEF_FFFF_FFFF_FFFF);
    }
    if p > 0x7FEF_FFFF_FFFF_FFFF {
        crate::binary64::lemma_pattern_order(0x7FEF_FFFF_FFFF_FFFF, p);
    }
    if p < 0x3FF0_0000_0000_0000 {
        crate::binary64::lemma_pattern_order(p, 0x3FF0_0000_0000_0000);
    }
    if p > 0x3FF0_0000_0000_0000 {
        crate::binary64::lemma_pattern_order(0x3FF0_0000_0000_0000, p);
    }
}

/// A single-precision pattern without sign has its units as its value, the one with the
/// sign their negative, and those beyond infinity have none.
pub proof fn law_single_patterns_have_signs(bits: u32)
    requires
        bits < 0x8000_0000,
    ensures
        ({
            let v = Binary32 { bits };
            let w = Binary32 { bits: (bits + 0x8000_0000) as u32 };
            &&& v.value() is None <==> bits > 0x7F80_0000
            &&& w.value() is None <==> bits > 0x7F80_0000
            &&& bits <= 0x7F80_0000 ==> v.value() == Some(single_units(bits) as int) && w.value()
                == Some(-(single_units(bits) as int))
            &&& v.units() == single_units(bits)
        }),
{
}

} // verus!
