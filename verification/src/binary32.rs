//! Single-precision numbers, held by their bit pattern.
//!
//! As with the double-precision numbers, a finite number is a whole number of
//! units, here of `2^-149`, and a result is the exact one rounded to 24
//! significant bits with ties to even. A sum beyond the largest number is
//! infinite, which counts as `2^128`.
use vstd::arithmetic::div_mod::*;
use vstd::arithmetic::mul::*;
use vstd::arithmetic::power2::*;
use vstd::prelude::*;

use crate::binary64::{pattern_units, split_pattern, Binary64, INFINITY_BITS, SIGN_BIT};
use crate::rounding::{
    excess_bits, lemma_bit_length_at_most, lemma_bit_length_unique, lemma_representable,
    lemma_round_at_most, lemma_round_common_factor, lemma_round_zero, nearest_even, power_of_two,
    representable, round_quotient, round_scaled, round_to_precision, scaled_den, scaled_num,
};

verus! {

/// Bit pattern of infinity.
pub const INFINITE_SCORE: u32 = 0x7F80_0000;

/// The sign bit.
pub const SIGN: u32 = 0x8000_0000;

/// A bit pattern that is no number.
pub const NO_SCORE: u32 = 0x7FC0_0000;

/// Weight of the exponent field: one more than the largest fraction.
pub const SINGLE_FRACTION_LIMIT: u64 = 0x0080_0000;

/// Significant bits of a single-precision number.
pub const SINGLE_PRECISION: u32 = 24;

/// A single-precision number, by its bit pattern.
#[derive(Clone, Copy, Debug, PartialEq, Eq, Structural)]
pub struct Binary32 {
    pub bits: u32,
}

/// Units of a bit pattern.
pub open spec fn single_units(bits: u32) -> nat {
    let exponent = bits as nat / 0x0080_0000;
    let fraction = bits as nat % 0x0080_0000;
    if exponent == 0 {
        fraction
    } else {
        (0x0080_0000 + fraction) * pow2((exponent - 1) as nat)
    }
}

/// Infinity, in units.
pub open spec fn infinite_units() -> nat {
    pow2(277)
}

/// The sum of two numbers given in units.
pub open spec fn single_plus(a: nat, b: nat) -> nat {
    let exact = round_to_precision(24, a + b, 1);
    if exact < infinite_units() {
        exact
    } else {
        infinite_units()
    }
}

impl Binary32 {
    pub open spec fn units(self) -> nat {
        single_units(self.bits)
    }

    /// Zero, a positive finite number or infinity.
    pub open spec fn is_number(self) -> bool {
        self.bits <= 0x7F80_0000
    }

    /// The number in units, with its sign; none where the pattern is no number. Both
    /// infinities count as `2^128`.
    pub open spec fn value(self) -> Option<int> {
        let pattern: u32 = if self.bits >= 0x8000_0000 {
            (self.bits - 0x8000_0000) as u32
        } else {
            self.bits
        };
        if pattern > 0x7F80_0000 {
            None
        } else if self.bits >= 0x8000_0000 {
            Some(-(single_units(pattern) as int))
        } else {
            Some(single_units(pattern) as int)
        }
    }
}

/// A number without its sign.
pub open spec fn size_of(v: int) -> nat {
    if v >= 0 {
        v as nat
    } else {
        (-v) as nat
    }
}

/// A size with the sign of `v`.
pub open spec fn signed_as(v: int, size: nat) -> int {
    if v >= 0 {
        size as int
    } else {
        -(size as int)
    }
}

/// The sum of two numbers with their signs; none where it is no number.
pub open spec fn signed_plus(a: Option<int>, b: Option<int>) -> Option<int> {
    match (a, b) {
        (Some(x), Some(y)) => if size_of(x) == infinite_units() {
            if size_of(y) == infinite_units() && x != y {
                None
            } else {
                Some(x)
            }
        } else if size_of(y) == infinite_units() {
            Some(y)
        } else {
            Some(signed_as(x + y, single_plus(size_of(x + y), 0)))
        },
        _ => None,
    }
}

/// A number with its sign over a whole number; infinities stay so.
pub open spec fn signed_over_whole(a: Option<int>, d: nat) -> Option<int> {
    match a {
        Some(x) => if size_of(x) == infinite_units() {
            Some(x)
        } else {
            Some(signed_as(x, single_over_whole(size_of(x), d)))
        },
        None => None,
    }
}

/// Patterns are ordered as the numbers they stand for.
pub proof fn lemma_single_order(a: u32, b: u32)
    requires
        a < b,
    ensures
        single_units(a) < single_units(b),
{
    let limit: nat = 0x0080_0000;
    let ea = a as nat / limit;
    let fa = a as nat % limit;
    let eb = b as nat / limit;
    let fb = b as nat % limit;
    assert(a == limit * ea + fa && b == limit * eb + fb);
    assert(ea <= eb);
    lemma2_to64();
    if ea == eb {
        if ea > 0 {
            let s = pow2((ea - 1) as nat);
            lemma_pow2_pos((ea - 1) as nat);
            lemma_mul_strict_inequality((limit + fa) as int, (limit + fb) as int, s as int);
        }
    } else if ea == 0 {
        let s = pow2((eb - 1) as nat);
        lemma_pow2_pos((eb - 1) as nat);
        lemma_mul_inequality(1, s as int, (limit + fb) as int);
        lemma_mul_is_commutative(s as int, (limit + fb) as int);
    } else {
        let s = pow2((ea - 1) as nat);
        let t = pow2((eb - 1) as nat);
        let u = pow2((eb - ea - 1) as nat);
        lemma_pow2_pos((ea - 1) as nat);
        lemma_pow2_pos((eb - ea - 1) as nat);
        lemma_pow2_adds(ea, (eb - ea - 1) as nat);
        lemma_pow2_unfold(ea);
        assert(t == 2 * s * u);
        lemma_mul_inequality(1, u as int, (2 * s) as int);
        lemma_mul_is_commutative(u as int, (2 * s) as int);
        lemma_mul_strict_inequality((limit + fa) as int, (2 * limit) as int, s as int);
        lemma_mul_inequality(limit as int, (limit + fb) as int, t as int);
        lemma_mul_inequality((2 * s) as int, t as int, limit as int);
        lemma_mul_is_commutative(limit as int, t as int);
    }
}

proof fn lemma_infinite_pattern()
    ensures
        single_units(INFINITE_SCORE) == infinite_units(),
{
    lemma2_to64();
    assert(0x7F80_0000nat / 0x0080_0000 == 255);
    assert(0x7F80_0000nat % 0x0080_0000 == 0);
    lemma_pow2_adds(23, 254);
}

/// Splits a pattern into a significand and the exponent of its last bit.
fn decode_single(bits: u32) -> (r: (u64, u32))
    requires
        bits <= INFINITE_SCORE,
    ensures
        single_units(bits) == r.0 * pow2(r.1 as nat),
        r.0 < 0x0100_0000,
        r.1 <= 254,
        r.0 == 0 <==> bits == 0,
        r.1 > 0 ==> r.0 >= 0x0080_0000,
        r.1 == if bits as nat / 0x0080_0000 == 0 {
            0
        } else {
            bits as nat / 0x0080_0000 - 1
        },
{
    let exponent: u64 = bits as u64 / SINGLE_FRACTION_LIMIT;
    let fraction: u64 = bits as u64 % SINGLE_FRACTION_LIMIT;
    proof {
        lemma2_to64();
    }
    if exponent == 0 {
        proof {
            assert(fraction * pow2(0) == fraction);
        }
        (fraction, 0)
    } else {
        (SINGLE_FRACTION_LIMIT + fraction, (exponent - 1) as u32)
    }
}

/// The pattern of `m * 2^e` units, infinite from `2^277` units on.
fn encode_single(m: u64, e: u32) -> (bits: u32)
    requires
        m <= 0x0100_0000,
        e <= 4200,
    ensures
        bits <= INFINITE_SCORE,
        m * pow2(e as nat) < infinite_units() ==> single_units(bits) == m * pow2(e as nat),
        m * pow2(e as nat) >= infinite_units() ==> single_units(bits) == infinite_units(),
{
    let ghost target: int = m * pow2(e as nat);
    let mut m: u64 = m;
    let mut e: u32 = e;
    proof {
        lemma2_to64();
        lemma_infinite_pattern();
        lemma_pow2_pos(277);
    }
    if m == 0 {
        proof {
            lemma_mul_basics(pow2(e as nat) as int);
        }
        return 0;
    }
    while m < SINGLE_FRACTION_LIMIT && e > 0
        invariant
            0 < m <= 0x0100_0000,
            e <= 4200,
            target == m * pow2(e as nat),
        decreases e,
    {
        proof {
            lemma_pow2_unfold(e as nat);
            let h = pow2((e - 1) as nat);
            assert(m * (2 * h) == (m * 2) * h) by (nonlinear_arith);
        }
        m = m * 2;
        e = e - 1;
    }
    if m == 2 * SINGLE_FRACTION_LIMIT {
        proof {
            lemma_pow2_unfold((e + 1) as nat);
            let h = pow2(e as nat);
            assert((2 * 0x0080_0000nat) * h == 0x0080_0000nat * (2 * h)) by (nonlinear_arith);
        }
        m = SINGLE_FRACTION_LIMIT;
        e = e + 1;
    }
    if m < SINGLE_FRACTION_LIMIT {
        proof {
            lemma_mul_basics(m as int);
            lemma_pow2_strictly_increases(23, 277);
        }
        m as u32
    } else if e >= 254 {
        proof {
            lemma_pow2_adds(23, 254);
            if e > 254 {
                lemma_pow2_strictly_increases(254, e as nat);
            }
            lemma_mul_inequality(pow2(254) as int, pow2(e as nat) as int, pow2(23) as int);
            lemma_mul_is_commutative(pow2(23) as int, pow2(e as nat) as int);
            lemma_mul_is_commutative(pow2(23) as int, pow2(254) as int);
            lemma_mul_inequality(pow2(23) as int, m as int, pow2(e as nat) as int);
        }
        INFINITE_SCORE
    } else {
        let bits: u64 = (e as u64 + 1) * SINGLE_FRACTION_LIMIT + (m - SINGLE_FRACTION_LIMIT);
        proof {
            let limit: int = 0x0080_0000;
            lemma_fundamental_div_mod_converse(bits as int, limit, e as int + 1, m as int - limit);
            assert(single_units(bits as u32) == target);
            lemma_single_order(bits as u32, INFINITE_SCORE);
        }
        bits as u32
    }
}

impl Binary32 {
    /// The sum of two numbers.
    pub fn sum(self, other: Binary32) -> (r: Binary32)
        requires
            self.is_number(),
            other.is_number(),
        ensures
            r.is_number(),
            r.units() == single_plus(self.units(), other.units()),
    {
        let (ma, ea) = decode_single(self.bits);
        let (mb, eb) = decode_single(other.bits);
        if ea >= eb {
            Binary32 { bits: sum_of_parts(ma, ea, mb, eb) }
        } else {
            Binary32 { bits: sum_of_parts(mb, eb, ma, ea) }
        }
    }
}

/// A significand of which nothing but its last bit matters for rounding, because
/// it lies far below another one.
proof fn lemma_far_summand(ma: nat, ea: nat, mb: nat, eb: nat)
    requires
        0x0080_0000 <= ma < 0x0100_0000,
        mb < 0x0100_0000,
        eb + 64 < ea,
    ensures
        round_to_precision(24, ma * pow2(ea) + mb * pow2(eb), 1) == ma * pow2(ea),
{
    lemma2_to64();
    lemma2_to64_rest();
    let s = pow2(ea);
    let v = mb * pow2(eb);
    lemma_pow2_pos(eb);
    lemma_pow2_pos(ea);
    lemma_pow2_adds(64, eb);
    lemma_mul_strict_inequality(2 * mb as int, pow2(64) as int, pow2(eb) as int);
    lemma_mul_is_associative(2, mb as int, pow2(eb) as int);
    lemma_pow2_strictly_increases((64 + eb) as nat, ea);
    assert(2 * v < s);
    let n = ma * s + v;
    lemma_pow2_adds(23, ea);
    lemma_pow2_adds(24, ea);
    lemma_mul_inequality(pow2(23) as int, ma as int, s as int);
    lemma_mul_inequality((ma + 1) as int, pow2(24) as int, s as int);
    lemma_mul_is_distributive_add_other_way(s as int, ma as int, 1);
    crate::rounding::lemma_bit_length_unique(n, 23 + ea);
    assert(n / 1 == n);
    assert(1 * s == s);
    lemma_fundamental_div_mod_converse(n as int, s as int, ma as int, v as int);
}

fn sum_of_parts(ma: u64, ea: u32, mb: u64, eb: u32) -> (bits: u32)
    requires
        ma < 0x0100_0000,
        mb < 0x0100_0000,
        eb <= ea <= 254,
        ea > 0 ==> ma >= 0x0080_0000,
    ensures
        bits <= INFINITE_SCORE,
        single_units(bits) == single_plus(
            (ma * pow2(ea as nat)) as nat,
            (mb * pow2(eb as nat)) as nat,
        ),
        single_plus((ma * pow2(ea as nat)) as nat, (mb * pow2(eb as nat)) as nat) == single_plus(
            (mb * pow2(eb as nat)) as nat,
            (ma * pow2(ea as nat)) as nat,
        ),
{
    let gap: u32 = ea - eb;
    let ghost ua: nat = (ma * pow2(ea as nat)) as nat;
    let ghost ub: nat = (mb * pow2(eb as nat)) as nat;
    proof {
        lemma2_to64();
        lemma2_to64_rest();
    }
    if gap > 64 {
        proof {
            lemma_far_summand(ma as nat, ea as nat, mb as nat, eb as nat);
        }
        return encode_single(ma, ea);
    }
    let scale: u128 = power_of_two(gap);
    proof {
        lemma_pow2_pos(gap as nat);
        if gap < 64 {
            lemma_pow2_strictly_increases(gap as nat, 64);
        }
        lemma_mul_strict_inequality(ma as int, pow2(24) as int, scale as int);
        lemma_mul_inequality(scale as int, pow2(64) as int, pow2(24) as int);
        lemma_pow2_adds(24, 64);
        lemma_pow2_unfold(89);
    }
    let n: u128 = ma as u128 * scale + mb as u128;
    proof {
        lemma_bit_length_at_most(n as nat, 89);
    }
    let (m, e) = round_scaled(n, eb as i32, SINGLE_PRECISION);
    proof {
        let sb = pow2(eb as nat);
        lemma_pow2_adds(gap as nat, eb as nat);
        assert(n * sb == ua + ub) by (nonlinear_arith)
            requires
                n == ma * scale + mb,
                ua == ma * (scale * sb),
                ub == mb * sb,
        ;
    }
    encode_single(m, e)
}

/// A number that is small beside another is lost in their difference.
proof fn lemma_far_difference(ma: nat, ea: nat, mb: nat, eb: nat)
    requires
        0x0080_0000 <= ma < 0x0100_0000,
        mb < 0x0100_0000,
        eb + 64 < ea,
    ensures
        mb * pow2(eb) <= ma * pow2(ea),
        round_to_precision(24, (ma * pow2(ea) - mb * pow2(eb)) as nat, 1) == ma * pow2(ea),
{
    lemma2_to64();
    lemma2_to64_rest();
    let s = pow2(ea);
    let v = mb * pow2(eb);
    lemma_pow2_pos(eb);
    lemma_pow2_pos(ea);
    lemma_pow2_adds(64, eb);
    lemma_mul_strict_inequality(4 * mb as int, pow2(64) as int, pow2(eb) as int);
    lemma_mul_is_associative(4, mb as int, pow2(eb) as int);
    lemma_pow2_strictly_increases((64 + eb) as nat, ea);
    assert(4 * v < s);
    lemma_mul_inequality(1, ma as int, s as int);
    let n = (ma * s - v) as nat;
    lemma_pow2_adds(23, ea);
    lemma_pow2_adds(24, ea);
    lemma_mul_is_distributive_sub_other_way(s as int, ma as int, 1);
    assert(n / 1 == n);
    assert(1 * s == s);
    if v == 0 {
        lemma_mul_inequality(pow2(23) as int, ma as int, s as int);
        lemma_mul_strict_inequality(ma as int, pow2(24) as int, s as int);
        lemma_bit_length_unique(n, 23 + ea);
        lemma_fundamental_div_mod_converse(n as int, s as int, ma as int, 0);
    } else if ma > 0x0080_0000 {
        lemma_mul_inequality(pow2(23) as int, (ma - 1) as int, s as int);
        lemma_mul_strict_inequality(ma as int, pow2(24) as int, s as int);
        lemma_bit_length_unique(n, 23 + ea);
        assert(excess_bits(24, n, 1) == ea);
        lemma_fundamental_div_mod_converse(n as int, s as int, ma - 1, s - v);
        assert(nearest_even(n, s) == ma);
    } else {
        let h = pow2((ea - 1) as nat);
        lemma_pow2_unfold(ea);
        lemma_pow2_adds(22, ea);
        lemma_pow2_unfold(23 + ea);
        lemma_pow2_pos((ea - 1) as nat);
        lemma_pow2_adds(24, (ea - 1) as nat);
        lemma_pow2_pos(22 + ea);
        lemma_mul_inequality(1, pow2(22) as int, s as int);
        assert(pow2((22 + ea) as nat) <= n < pow2((23 + ea) as nat));
        lemma_bit_length_unique(n, 22 + ea);
        assert(excess_bits(24, n, 1) == ea - 1);
        assert(1 * h == h);
        let top: nat = 0x0100_0000;
        lemma_mul_is_distributive_sub_other_way(h as int, top as int, 1);
        assert(n == (top - 1) * h + (h - v));
        lemma_fundamental_div_mod_converse(n as int, h as int, top - 1, h - v);
        assert(nearest_even(n, h) == top);
    }
}

/// The exponent does not decrease with the pattern.
proof fn lemma_single_exponents_ordered(a: u32, b: u32)
    requires
        a <= b,
    ensures
        a as nat / 0x0080_0000 <= b as nat / 0x0080_0000,
{
    lemma_div_is_ordered(a as int, b as int, 0x0080_0000);
}

/// The difference of two finite numbers without sign.
fn difference_of(high: u32, low: u32) -> (bits: u32)
    requires
        low <= high < INFINITE_SCORE,
    ensures
        bits < INFINITE_SCORE,
        single_units(low) <= single_units(high),
        single_units(bits) == round_to_precision(
            24,
            (single_units(high) - single_units(low)) as nat,
            1,
        ),
{
    let (ma, ea) = decode_single(high);
    let (mb, eb) = decode_single(low);
    let ghost ua = single_units(high);
    let ghost ub = single_units(low);
    proof {
        lemma2_to64();
        lemma2_to64_rest();
        lemma_infinite_pattern();
        lemma_single_order(high, INFINITE_SCORE);
        if low < high {
            lemma_single_order(low, high);
        }
        lemma_single_exponents_ordered(low, high);
    }
    let gap: u32 = ea - eb;
    if gap > 64 {
        proof {
            lemma_far_difference(ma as nat, ea as nat, mb as nat, eb as nat);
        }
        return high;
    }
    let scale: u128 = power_of_two(gap);
    proof {
        let sb = pow2(eb as nat);
        lemma_pow2_pos(eb as nat);
        lemma_pow2_pos(gap as nat);
        lemma_pow2_adds(gap as nat, eb as nat);
        if gap < 64 {
            lemma_pow2_strictly_increases(gap as nat, 64);
        }
        lemma_mul_strict_inequality(ma as int, pow2(24) as int, scale as int);
        lemma_mul_inequality(scale as int, pow2(64) as int, pow2(24) as int);
        lemma_pow2_adds(24, 64);
        assert(ma * scale >= mb) by (nonlinear_arith)
            requires
                ua == ma * (scale * sb),
                ub == mb * sb,
                ub <= ua,
                sb > 0,
        ;
    }
    let n: u128 = ma as u128 * scale - mb as u128;
    proof {
        lemma_bit_length_at_most(n as nat, 88);
    }
    let (m, e) = round_scaled(n, eb as i32, SINGLE_PRECISION);
    proof {
        let sb = pow2(eb as nat);
        assert(n * sb == ua - ub) by (nonlinear_arith)
            requires
                n == ma * scale - mb,
                ua == ma * (scale * sb),
                ub == mb * sb,
        ;
        lemma_single_representable(high);
        lemma_round_at_most(24, (ua - ub) as nat, 1, ua);
    }
    let bits: u32 = encode_single(m, e);
    proof {
        if bits == INFINITE_SCORE {
            assert(single_units(bits) == infinite_units());
        }
    }
    bits
}

impl Binary32 {
    /// The sum of two numbers with their signs.
    pub fn signed_sum(self, other: Binary32) -> (r: Binary32)
        ensures
            r.value() == signed_plus(self.value(), other.value()),
            self.is_number() && other.is_number() ==> r.is_number() && r.units() == single_plus(
                self.units(),
                other.units(),
            ),
    {
        let negative: bool = self.bits >= SIGN;
        let other_negative: bool = other.bits >= SIGN;
        let a: u32 = if negative {
            self.bits - SIGN
        } else {
            self.bits
        };
        let b: u32 = if other_negative {
            other.bits - SIGN
        } else {
            other.bits
        };
        proof {
            lemma_infinite_pattern();
            lemma_zero_single();
            if a < INFINITE_SCORE {
                lemma_single_order(a, INFINITE_SCORE);
            }
            if b < INFINITE_SCORE {
                lemma_single_order(b, INFINITE_SCORE);
            }
            if a > 0 {
                lemma_single_order(0, a);
            }
            if b > 0 {
                lemma_single_order(0, b);
            }
        }
        if a > INFINITE_SCORE || b > INFINITE_SCORE {
            return Binary32 { bits: NO_SCORE };
        }
        if negative == other_negative {
            let sum = (Binary32 { bits: a }).sum(Binary32 { bits: b });
            proof {
                lemma_infinite_sum(single_units(a), single_units(b));
                lemma_round_zero(24, 1);
                assert(single_plus(single_units(a), single_units(b)) == single_plus(
                    single_units(a) + single_units(b),
                    0,
                ));
            }
            return if negative {
                Binary32 { bits: sum.bits + SIGN }
            } else {
                sum
            };
        }
        if a == INFINITE_SCORE && b == INFINITE_SCORE {
            return Binary32 { bits: NO_SCORE };
        }
        if a == INFINITE_SCORE {
            return self;
        }
        if b == INFINITE_SCORE {
            return other;
        }
        if a >= b {
            let size: u32 = difference_of(a, b);
            proof {
                lemma_difference_sizes(size, a, b);
            }
            Binary32 {
                bits: if negative {
                    size + SIGN
                } else {
                    size
                },
            }
        } else {
            let size: u32 = difference_of(b, a);
            proof {
                lemma_difference_sizes(size, b, a);
            }
            Binary32 {
                bits: if other_negative {
                    size + SIGN
                } else {
                    size
                },
            }
        }
    }

    /// The number with its sign divided by `offset + rank`, where the rank and the sum
    /// are themselves taken in single precision.
    pub fn signed_over_rank(self, offset: u32, rank: usize) -> (r: Binary32)
        requires
            offset > 0,
        ensures
            r.value() == signed_over_whole(
                self.value(),
                single_from_whole(offset as nat + single_from_whole(rank as nat)),
            ),
            self.bits < INFINITE_SCORE ==> r.is_number() && r.units() == single_over_whole(
                self.units(),
                single_from_whole(offset as nat + single_from_whole(rank as nat)),
            ),
    {
        let negative: bool = self.bits >= SIGN;
        let a: u32 = if negative {
            self.bits - SIGN
        } else {
            self.bits
        };
        if a >= INFINITE_SCORE {
            proof {
                lemma_infinite_pattern();
            }
            return self;
        }
        let r = (Binary32 { bits: a }).over_rank(offset, rank);
        proof {
            lemma_infinite_pattern();
            lemma_zero_single();
            lemma_single_order(a, INFINITE_SCORE);
            if a > 0 {
                lemma_single_order(0, a);
            } else {
                lemma_whole_positive(offset as nat + single_from_whole(rank as nat));
                lemma_round_zero(
                    24,
                    single_from_whole(offset as nat + single_from_whole(rank as nat)),
                );
            }
        }
        if negative {
            Binary32 { bits: r.bits + SIGN }
        } else {
            r
        }
    }
}

proof fn lemma_zero_single()
    ensures
        single_units(0) == 0,
{
}

/// A sum with infinity is infinite.
proof fn lemma_infinite_sum(a: nat, b: nat)
    requires
        a <= infinite_units(),
        b <= infinite_units(),
    ensures
        a == infinite_units() || b == infinite_units() ==> single_plus(a, b) == infinite_units(),
{
    lemma_infinite_pattern();
    lemma_single_representable(INFINITE_SCORE);
    if a == infinite_units() || b == infinite_units() {
        crate::rounding::lemma_round_at_least(24, a + b, 1, infinite_units());
    }
}

/// A whole number in single precision is not zero, unless the number is.
proof fn lemma_whole_positive(n: nat)
    requires
        n > 0,
    ensures
        single_from_whole(n) > 0,
{
    lemma2_to64();
    lemma_representable(24, 1, 0);
    crate::rounding::lemma_round_at_least(24, n, 1, 1);
}

/// The rounded difference of finite numbers is finite.
proof fn lemma_difference_sizes(size: u32, high: u32, low: u32)
    requires
        low <= high < INFINITE_SCORE,
        size < INFINITE_SCORE,
        single_units(low) <= single_units(high),
        single_units(size) == round_to_precision(
            24,
            (single_units(high) - single_units(low)) as nat,
            1,
        ),
    ensures
        single_units(size) == single_plus((single_units(high) - single_units(low)) as nat, 0),
        single_units(high) == single_units(low) ==> single_units(size) == 0,
{
    lemma_infinite_pattern();
    lemma_single_order(size, INFINITE_SCORE);
    if single_units(high) == single_units(low) {
        lemma_round_zero(24, 1);
    }
}

/// A whole number as a single-precision one.
pub open spec fn single_from_whole(n: nat) -> nat {
    round_to_precision(24, n, 1)
}

/// A single-precision number given in units, divided by a whole number.
pub open spec fn single_over_whole(a: nat, d: nat) -> nat {
    round_to_precision(24, a, d)
}

/// A whole number in single precision is neither zero nor above twice the
/// number, unless the number is.
proof fn lemma_single_from_whole(n: nat)
    requires
        n > 0,
        n < pow2(70),
    ensures
        single_from_whole(n) > 0,
        single_from_whole(n) <= pow2(70),
{
    lemma2_to64();
    lemma_representable(24, 1, 0);
    lemma_representable(24, 1, 70);
    crate::rounding::lemma_round_at_least(24, n, 1, 1);
    lemma_round_at_most(24, n, 1, pow2(70));
}

/// Rounds a whole number to single precision; the result is `r.0 * 2^r.1`.
fn whole_to_single(n: u128) -> (r: (u64, u32))
    requires
        0 < n < 0x40_0000_0000_0000_0000,
    ensures
        r.0 * pow2(r.1 as nat) == single_from_whole(n as nat),
        0 < r.0 <= 0x0100_0000,
        r.1 <= 70,
{
    proof {
        lemma2_to64();
        lemma_pow2_adds(64, 6);
        lemma_bit_length_at_most(n as nat, 70);
        lemma_single_from_whole(n as nat);
        lemma_mul_basics(n as int);
    }
    let (m, e) = round_scaled(n, 0, SINGLE_PRECISION);
    proof {
        lemma_mul_basics(pow2(e as nat) as int);
        if m == 0 {
            assert(false);
        }
        if e > 70 {
            lemma_pow2_strictly_increases(70, e as nat);
            lemma_mul_inequality(1, m as int, pow2(e as nat) as int);
        }
    }
    (m, e)
}

impl Binary32 {
    /// The number divided by `offset + rank`, where the rank and the sum are
    /// themselves taken in single precision.
    pub fn over_rank(self, offset: u32, rank: usize) -> (r: Binary32)
        requires
            self.is_number(),
            self.bits < INFINITE_SCORE,
            offset > 0,
        ensures
            r.is_number(),
            r.units() == single_over_whole(
                self.units(),
                single_from_whole(offset as nat + single_from_whole(rank as nat)),
            ),
    {
        proof {
            lemma2_to64();
            lemma2_to64_rest();
            lemma_pow2_adds(64, 6);
            lemma_infinite_pattern();
        }
        let rank_value: u128 = if rank == 0 {
            proof {
                lemma_round_zero(24, 1);
            }
            0
        } else {
            let (m, e) = whole_to_single(rank as u128);
            proof {
                lemma_representable(24, 1, 64);
                lemma_round_at_most(24, rank as nat, 1, pow2(64));
                if e > 64 {
                    lemma_pow2_strictly_increases(64, e as nat);
                    lemma_mul_inequality(1, m as int, pow2(e as nat) as int);
                }
            }
            let scale: u128 = power_of_two(e);
            m as u128 * scale
        };
        proof {
            assert(rank_value <= pow2(64));
        }
        let (md, ed) = whole_to_single(offset as u128 + rank_value);
        let (mw, ew) = decode_single(self.bits);
        let ghost ua = self.units();
        let ghost whole = single_from_whole(offset as nat + single_from_whole(rank as nat));
        if mw == 0 {
            proof {
                lemma_mul_basics(pow2(ew as nat) as int);
                lemma_pow2_pos(ed as nat);
                lemma_mul_inequality(1, md as int, pow2(ed as nat) as int);
                lemma_round_zero(24, whole);
            }
            return Binary32 { bits: 0 };
        }
        let mut n: u64 = mw;
        let mut j: u32 = 0;
        while n < SINGLE_FRACTION_LIMIT
            invariant
                0 < n < 0x0100_0000,
                mw > 0,
                n == mw * pow2(j as nat),
                j <= 23,
            decreases 0x0100_0000 - n,
        {
            proof {
                lemma_pow2_unfold((j + 1) as nat);
                lemma_pow2_pos(j as nat);
                assert(mw * (2 * pow2(j as nat)) == 2 * (mw * pow2(j as nat))) by (nonlinear_arith);
                lemma2_to64();
                if j >= 23 {
                    lemma_mul_inequality(1, mw as int, pow2(j as nat) as int);
                }
            }
            n = n * 2;
            j = j + 1;
        }
        let x: i32 = ew as i32 - ed as i32 - j as i32;
        let (m, e) = round_quotient(n, md, x, SINGLE_PRECISION);
        proof {
            lemma_over_whole_aligned(
                mw as nat,
                ew as nat,
                md as nat,
                ed as nat,
                j as nat,
                n as nat,
                x as int,
            );
            lemma_pow2_pos(ed as nat);
            lemma_mul_inequality(1, md as int, pow2(ed as nat) as int);
            lemma_single_order(self.bits, INFINITE_SCORE);
            lemma_single_representable(self.bits);
            lemma_mul_inequality(1, whole as int, ua as int);
            lemma_mul_is_commutative(whole as int, ua as int);
            lemma_round_at_most(24, ua, whole, ua);
        }
        Binary32 { bits: encode_single(m, e) }
    }
}

/// Every pattern is a value of the format.
proof fn lemma_single_representable(bits: u32)
    ensures
        representable(24, single_units(bits)),
{
    lemma2_to64();
    let limit: nat = 0x0080_0000;
    let exponent = bits as nat / limit;
    let fraction = bits as nat % limit;
    if exponent == 0 {
        assert(fraction * pow2(0) == fraction);
        lemma_representable(24, fraction, 0);
    } else {
        lemma_representable(24, limit + fraction, (exponent - 1) as nat);
    }
}

/// Brings the quotient of two significands to that of the numbers they stand for.
proof fn lemma_over_whole_aligned(
    mw: nat,
    ew: nat,
    md: nat,
    ed: nat,
    j: nat,
    n: nat,
    x: int,
)
    requires
        md > 0,
        n == mw * pow2(j),
        x == ew - ed - j,
    ensures
        md * pow2(ed) > 0,
        single_over_whole(mw * pow2(ew), md * pow2(ed)) == round_to_precision(
            24,
            scaled_num(n, x),
            md * scaled_den(x),
        ),
{
    let a = mw * pow2(ew);
    let d = md * pow2(ed);
    let sj = pow2(j);
    lemma_pow2_pos(ew);
    lemma_pow2_pos(ed);
    lemma_pow2_pos(ed + j);
    lemma_pow2_pos(j);
    assert(d > 0) by (nonlinear_arith)
        requires
            d == md * pow2(ed),
            md > 0,
            pow2(ed) > 0,
    ;
    lemma_pow2_adds(ed, j);
    lemma_round_common_factor(24, a, d, sj);
    assert(a * sj == n * pow2(ew)) by (nonlinear_arith)
        requires
            a == mw * pow2(ew),
            n == mw * sj,
    ;
    assert(d * sj == md * pow2(ed + j)) by (nonlinear_arith)
        requires
            d == md * pow2(ed),
            pow2(ed + j) == pow2(ed) * sj,
    ;
    if x >= 0 {
        lemma_pow2_adds(x as nat, ed + j);
        lemma_mul_is_associative(n as int, pow2(x as nat) as int, pow2(ed + j) as int);
        lemma_round_common_factor(24, n * pow2(x as nat), md, pow2(ed + j));
        assert(md * 1 == md);
    } else {
        let k = (-x) as nat;
        lemma_pow2_pos(k);
        lemma_pow2_adds(k, ew);
        lemma_mul_is_associative(md as int, pow2(k) as int, pow2(ew) as int);
        assert(md * pow2(k) > 0) by (nonlinear_arith)
            requires
                md > 0,
                pow2(k) > 0,
        ;
        lemma_round_common_factor(24, n, md * pow2(k), pow2(ew));
    }
}

/// Bit pattern of the sign of a single-precision number.
pub const SINGLE_SIGN: u32 = 0x8000_0000;

/// Bit pattern of a single-precision value that is no number.
pub const SINGLE_NOT_A_NUMBER: u32 = 0x7FC0_0000;

/// A double-precision number without sign, given in its units, as a
/// single-precision one.
pub open spec fn narrowed(units: nat) -> nat {
    let rounded = round_to_precision(24, units, pow2(925));
    if rounded < infinite_units() {
        rounded
    } else {
        infinite_units()
    }
}

/// The bit pattern of the nearest single-precision number, with the sign kept.
pub fn narrow(v: Binary64) -> (r: u32)
    ensures
        v.is_nan() ==> r == SINGLE_NOT_A_NUMBER,
        !v.is_nan() ==> (r >= SINGLE_SIGN <==> v.is_negative()),
        !v.is_nan() ==> ({
            let pattern = if r >= SINGLE_SIGN {
                (r - SINGLE_SIGN) as u32
            } else {
                r
            };
            pattern <= INFINITE_SCORE && single_units(pattern) == narrowed(
                pattern_units(v.pattern()),
            )
        }),
{
    let negative: bool = v.bits >= SIGN_BIT;
    let pattern: u64 = if negative {
        v.bits - SIGN_BIT
    } else {
        v.bits
    };
    if pattern > INFINITY_BITS {
        return SINGLE_NOT_A_NUMBER;
    }
    let (m, e) = split_pattern(pattern);
    let x: i32 = e as i32 - 925;
    proof {
        lemma2_to64();
        lemma2_to64_rest();
        lemma_bit_length_at_most(m as nat, 53);
    }
    let (n, f) = round_scaled(m as u128, x, SINGLE_PRECISION);
    proof {
        let units = pattern_units(pattern);
        lemma_pow2_pos(925);
        lemma_pow2_pos(e as nat);
        if x >= 0 {
            lemma_pow2_adds(x as nat, 925);
            lemma_mul_is_associative(m as int, pow2(x as nat) as int, pow2(925) as int);
            lemma_round_common_factor(24, m as nat * pow2(x as nat), 1, pow2(925));
            lemma_mul_basics(pow2(925) as int);
        } else {
            lemma_pow2_adds((-x) as nat, e as nat);
            lemma_pow2_pos((-x) as nat);
            lemma_round_common_factor(24, m as nat, pow2((-x) as nat), pow2(e as nat));
        }
    }
    let bits: u32 = encode_single(n, f);
    if negative {
        SINGLE_SIGN + bits
    } else {
        bits
    }
}

} // verus!
