//! Double-precision numbers held by their bit pattern.
//!
//! A finite number is a whole number of units of `2^-1074`, the smallest
//! positive one. Comparisons and the arithmetic on the range from zero to one
//! are stated over that number of units: a sum, difference or product is the
//! exact one, rounded to 53 significant bits with ties to even.
use vstd::arithmetic::div_mod::*;
use vstd::arithmetic::mul::*;
use vstd::arithmetic::power2::*;
use vstd::prelude::*;

use crate::rounding::{
    excess_bits, lemma_bit_length_at_most, lemma_bit_length_unique,
    lemma_nearest_even_common_factor, lemma_representable, lemma_round_at_least, lemma_round_at_most,
    lemma_round_common_factor, lemma_round_zero, lemma_scaled_length, nearest_even, power_of_two,
    representable, round_quotient, round_scaled, round_to_precision, scaled_den, scaled_num,
};

verus! {

/// Bit pattern of negative zero: the sign bit alone.
pub const SIGN_BIT: u64 = 0x8000_0000_0000_0000;

/// Bit pattern of positive infinity. Larger patterns without the sign are not numbers.
pub const INFINITY_BITS: u64 = 0x7FF0_0000_0000_0000;

/// Bit pattern of the number one.
pub const ONE_BITS: u64 = 0x3FF0_0000_0000_0000;

/// Weight of the exponent field: one more than the largest fraction.
pub const FRACTION_LIMIT: u64 = 0x0010_0000_0000_0000;

/// Below this pattern the sum of two numbers without sign is finite.
pub const SUMMAND_LIMIT: u64 = 0x7FE0_0000_0000_0000;

/// Significant bits of a double-precision number.
pub const PRECISION: u32 = 53;

/// A double-precision number, by its bit pattern.
#[derive(Clone, Copy, Debug, PartialEq, Eq, Structural)]
pub struct Binary64 {
    pub bits: u64,
}

/// Units of a bit pattern without sign.
pub open spec fn pattern_units(bits: u64) -> nat {
    let exponent = bits as nat / 0x0010_0000_0000_0000;
    let fraction = bits as nat % 0x0010_0000_0000_0000;
    if exponent == 0 {
        fraction
    } else {
        (0x0010_0000_0000_0000 + fraction) * pow2((exponent - 1) as nat)
    }
}

/// The greatest finite number, in units.
pub open spec fn greatest() -> nat {
    pattern_units(0x7FEF_FFFF_FFFF_FFFF)
}

/// The number one, in units.
pub open spec fn one() -> nat {
    pow2(1074)
}

/// The product of two numbers given in units.
pub open spec fn times(a: nat, b: nat) -> nat {
    round_to_precision(53, a * b, one())
}

/// The sum of two numbers given in units.
pub open spec fn plus(a: nat, b: nat) -> nat {
    round_to_precision(53, a + b, 1)
}

/// The distance of two numbers given in units.
pub open spec fn distance(a: nat, b: nat) -> nat {
    round_to_precision(
        53,
        if a >= b {
            (a - b) as nat
        } else {
            (b - a) as nat
        },
        1,
    )
}

/// One minus a number given in units.
pub open spec fn complement(a: nat) -> nat {
    distance(one(), a)
}

impl Binary64 {
    pub open spec fn is_negative(self) -> bool {
        self.bits >= 0x8000_0000_0000_0000
    }

    pub open spec fn pattern(self) -> u64 {
        if self.is_negative() {
            (self.bits - 0x8000_0000_0000_0000) as u64
        } else {
            self.bits
        }
    }

    pub open spec fn is_nan(self) -> bool {
        self.pattern() > 0x7FF0_0000_0000_0000
    }

    pub open spec fn is_finite(self) -> bool {
        self.pattern() < 0x7FF0_0000_0000_0000
    }

    /// The number in units; an infinity lies beyond every finite number.
    pub open spec fn value(self) -> int {
        if self.is_negative() {
            -(pattern_units(self.pattern()) as int)
        } else {
            pattern_units(self.pattern()) as int
        }
    }

    /// A number from zero to one, without the sign bit.
    pub open spec fn in_unit_range(self) -> bool {
        self.bits <= 0x3FF0_0000_0000_0000
    }

    /// Units of a number without sign.
    pub open spec fn units(self) -> nat {
        pattern_units(self.bits)
    }
}

/// Patterns without sign are ordered as the numbers they stand for.
pub proof fn lemma_pattern_order(a: u64, b: u64)
    requires
        a < b,
    ensures
        pattern_units(a) < pattern_units(b),
{
    let limit: nat = 0x0010_0000_0000_0000;
    let ea = a as nat / limit;
    let fa = a as nat % limit;
    let eb = b as nat / limit;
    let fb = b as nat % limit;
    assert(a == limit * ea + fa && b == limit * eb + fb);
    assert(ea <= eb);
    lemma2_to64();
    if ea == eb {
        if ea > 0 {
            let s = pow2((ea - 1) as nat);
            lemma_pow2_pos((ea - 1) as nat);
            assert((limit + fa) * s < (limit + fb) * s) by (nonlinear_arith)
                requires
                    fa < fb,
                    s > 0,
            ;
        }
    } else if ea == 0 {
        let s = pow2((eb - 1) as nat);
        lemma_pow2_pos((eb - 1) as nat);
        assert((limit + fb) * s >= limit) by (nonlinear_arith)
            requires
                fb >= 0,
                s >= 1,
                limit >= 0,
        ;
    } else {
        let s = pow2((ea - 1) as nat);
        let t = pow2((eb - 1) as nat);
        let u = pow2((eb - ea - 1) as nat);
        lemma_pow2_pos((ea - 1) as nat);
        lemma_pow2_pos((eb - ea - 1) as nat);
        lemma_pow2_adds(ea, (eb - ea - 1) as nat);
        lemma_pow2_unfold(ea);
        assert(t == 2 * s * u);
        lemma_mul_inequality(1, u as int, (2 * s) as int);
        lemma_mul_is_commutative(u as int, (2 * s) as int);
        assert(t >= 2 * s);
        lemma_mul_strict_inequality((limit + fa) as int, (2 * limit) as int, s as int);
        lemma_mul_inequality(limit as int, (limit + fb) as int, t as int);
        lemma_mul_inequality((2 * s) as int, t as int, limit as int);
        lemma_mul_is_commutative(limit as int, t as int);
    }
}

pub proof fn lemma_one_units()
    ensures
        pattern_units(ONE_BITS) == one(),
        one() > 0,
{
    lemma2_to64();
    lemma2_to64_rest();
    assert(0x3FF0_0000_0000_0000nat / 0x0010_0000_0000_0000 == 1023);
    assert(0x3FF0_0000_0000_0000nat % 0x0010_0000_0000_0000 == 0);
    lemma_pow2_adds(52, 1022);
    lemma_pow2_pos(1074);
}

/// Every pattern is a value of the format.
pub proof fn lemma_pattern_representable(bits: u64)
    ensures
        representable(53, pattern_units(bits)),
{
    lemma2_to64();
    lemma2_to64_rest();
    let limit: nat = 0x0010_0000_0000_0000;
    let exponent = bits as nat / limit;
    let fraction = bits as nat % limit;
    if exponent == 0 {
        assert(fraction * pow2(0) == fraction);
        lemma_representable(53, fraction, 0);
    } else {
        lemma_representable(53, limit + fraction, (exponent - 1) as nat);
    }
}

/// Splits a pattern into a significand and the exponent of its last bit.
pub fn split_pattern(bits: u64) -> (r: (u64, u32))
    requires
        bits < SIGN_BIT,
    ensures
        pattern_units(bits) == r.0 * pow2(r.1 as nat),
        r.0 < 0x0020_0000_0000_0000,
        r.1 <= 2046,
        r.1 == if bits / FRACTION_LIMIT == 0 {
            0
        } else {
            bits / FRACTION_LIMIT - 1
        },
        r.1 > 0 ==> r.0 >= 0x0010_0000_0000_0000,
        bits < INFINITY_BITS ==> r.1 <= 2045,
        bits < ONE_BITS ==> r.1 <= 1021,
        bits == ONE_BITS ==> r.1 == 1022 && r.0 == 0x0010_0000_0000_0000,
{
    let exponent: u64 = bits / FRACTION_LIMIT;
    let fraction: u64 = bits % FRACTION_LIMIT;
    proof {
        lemma2_to64();
    }
    if exponent == 0 {
        proof {
            assert(fraction * pow2(0) == fraction);
        }
        (fraction, 0)
    } else {
        (FRACTION_LIMIT + fraction, (exponent - 1) as u32)
    }
}

/// The pattern of `m * 2^e` units.
fn encode(m: u64, e: u32) -> (bits: u64)
    requires
        m <= 0x0020_0000_0000_0000,
        m * pow2(e as nat) <= pattern_units((INFINITY_BITS - 1) as u64),
    ensures
        bits < INFINITY_BITS,
        pattern_units(bits) == m * pow2(e as nat),
{
    let ghost target: int = m * pow2(e as nat);
    let mut m: u64 = m;
    let mut e: u32 = e;
    proof {
        lemma2_to64();
    }
    if m == 0 {
        proof {
            lemma_mul_basics(pow2(e as nat) as int);
        }
        return 0;
    }
    while m < FRACTION_LIMIT && e > 0
        invariant
            0 < m <= 0x0020_0000_0000_0000,
            target == m * pow2(e as nat),
        decreases e,
    {
        proof {
            lemma_pow2_unfold(e as nat);
            let h = pow2((e - 1) as nat);
            assert(m * (2 * h) == (m * 2) * h) by (nonlinear_arith);
        }
        m = m * 2;
        e = e - 1;
    }
    proof {
        if m >= FRACTION_LIMIT {
            lemma_exponent_bound(m as nat, e as nat);
        }
    }
    if m == 2 * FRACTION_LIMIT {
        proof {
            lemma_pow2_unfold((e + 1) as nat);
            let h = pow2(e as nat);
            assert((2 * 0x0010_0000_0000_0000nat) * h == 0x0010_0000_0000_0000nat * (2 * h)) by (nonlinear_arith);
            lemma_exponent_bound(0x0010_0000_0000_0000, (e + 1) as nat);
        }
        m = FRACTION_LIMIT;
        e = e + 1;
    }
    if m < FRACTION_LIMIT {
        proof {
            lemma_mul_basics(m as int);
        }
        m
    } else {
        let bits: u64 = (e as u64 + 1) * FRACTION_LIMIT + (m - FRACTION_LIMIT);
        proof {
            let limit: int = 0x0010_0000_0000_0000;
            lemma_fundamental_div_mod_converse(
                bits as int,
                limit,
                e as int + 1,
                m as int - limit,
            );
        }
        bits
    }
}

/// Whether `m * 2^e` units are a finite number.
fn fits(m: u64, e: u32) -> (r: bool)
    requires
        m <= 0x0020_0000_0000_0000,
    ensures
        r == (m * pow2(e as nat) <= greatest()),
{
    let mut n: u64 = m;
    let mut k: u32 = e;
    proof {
        lemma2_to64();
        lemma2_to64_rest();
        lemma_greatest();
    }
    if m == 0 {
        proof {
            lemma_mul_basics(pow2(e as nat) as int);
        }
        return true;
    }
    while k > 2045
        invariant
            0 < n <= 0x0020_0000_0000_0000,
            m * pow2(e as nat) == n * pow2(k as nat),
            greatest() == 0x001F_FFFF_FFFF_FFFF * pow2(2045),
        decreases k,
    {
        proof {
            lemma_pow2_unfold(k as nat);
            let h = pow2((k - 1) as nat);
            assert(n * (2 * h) == (n * 2) * h) by (nonlinear_arith);
        }
        if n > 0x000F_FFFF_FFFF_FFFF {
            proof {
                let h = pow2((k - 1) as nat);
                lemma_pow2_pos(2045);
                if k > 2046 {
                    lemma_pow2_strictly_increases(2045, (k - 1) as nat);
                }
                assert((n * 2) * h > 0x001F_FFFF_FFFF_FFFF * pow2(2045)) by (nonlinear_arith)
                    requires
                        n * 2 >= 0x0020_0000_0000_0000,
                        h >= pow2(2045),
                        pow2(2045) > 0,
                ;
            }
            return false;
        }
        n = n * 2;
        k = k - 1;
    }
    proof {
        lemma_pow2_pos(k as nat);
        lemma_pow2_pos(2045);
        let s = pow2(k as nat);
        if k < 2045 {
            lemma_pow2_unfold((k + 1) as nat);
            if k + 1 < 2045 {
                lemma_pow2_strictly_increases((k + 1) as nat, 2045);
            }
            assert(n * s <= 0x001F_FFFF_FFFF_FFFF * pow2(2045)) by (nonlinear_arith)
                requires
                    n <= 0x0020_0000_0000_0000,
                    2 * s <= pow2(2045),
                    s > 0,
            ;
        } else {
            assert(n <= 0x001F_FFFF_FFFF_FFFF ==> n * s <= 0x001F_FFFF_FFFF_FFFF * s)
                by (nonlinear_arith)
                requires
                    s > 0,
            ;
            assert(n > 0x001F_FFFF_FFFF_FFFF ==> n * s > 0x001F_FFFF_FFFF_FFFF * s)
                by (nonlinear_arith)
                requires
                    s > 0,
            ;
        }
    }
    k < 2045 || n <= 0x001F_FFFF_FFFF_FFFF
}

proof fn lemma_greatest()
    ensures
        greatest() == 0x001F_FFFF_FFFF_FFFF * pow2(2045),
{
    assert((0x7FF0_0000_0000_0000nat - 1) as nat / 0x0010_0000_0000_0000 == 2046);
    assert((0x7FF0_0000_0000_0000nat - 1) as nat % 0x0010_0000_0000_0000 == 0x000F_FFFF_FFFF_FFFF);
}

/// A full significand of a finite number has a bounded exponent.
proof fn lemma_exponent_bound(m: nat, e: nat)
    requires
        m >= 0x0010_0000_0000_0000,
        m * pow2(e) <= pattern_units((INFINITY_BITS - 1) as u64),
    ensures
        e <= 2045,
{
    let limit: nat = 0x0010_0000_0000_0000;
    assert((0x7FF0_0000_0000_0000nat - 1) as nat / limit == 2046);
    let top: nat = (limit + ((0x7FF0_0000_0000_0000nat - 1) as nat % limit)) as nat;
    assert(top < 2 * limit);
    if e >= 2046 {
        let s = pow2(2045);
        lemma_pow2_pos(2045);
        lemma_pow2_unfold(2046);
        if e > 2046 {
            lemma_pow2_strictly_increases(2046, e);
        }
        lemma_mul_inequality(limit as int, m as int, pow2(e) as int);
        lemma_mul_inequality((2 * s) as int, pow2(e) as int, limit as int);
        lemma_mul_is_commutative(limit as int, pow2(e) as int);
        lemma_mul_strict_inequality(top as int, (2 * limit) as int, s as int);
    }
}

impl Binary64 {
    /// `self < other`; false where either is not a number.
    pub fn less_than(self, other: Binary64) -> (r: bool)
        ensures
            r == (!self.is_nan() && !other.is_nan() && self.value() < other.value()),
    {
        let a_negative: bool = self.bits >= SIGN_BIT;
        let b_negative: bool = other.bits >= SIGN_BIT;
        let a: u64 = if a_negative {
            self.bits - SIGN_BIT
        } else {
            self.bits
        };
        let b: u64 = if b_negative {
            other.bits - SIGN_BIT
        } else {
            other.bits
        };
        proof {
            if a < b {
                lemma_pattern_order(a, b);
            }
            if b < a {
                lemma_pattern_order(b, a);
            }
            lemma_zero_pattern(a);
            lemma_zero_pattern(b);
        }
        if a > INFINITY_BITS || b > INFINITY_BITS {
            false
        } else if a_negative && b_negative {
            b < a
        } else if a_negative {
            a > 0 || b > 0
        } else if b_negative {
            false
        } else {
            a < b
        }
    }

    /// `self <= other`; false where either is not a number.
    pub fn at_most(self, other: Binary64) -> (r: bool)
        ensures
            r == (!self.is_nan() && !other.is_nan() && self.value() <= other.value()),
    {
        !self.not_a_number() && !other.not_a_number() && !other.less_than(self)
    }

    /// Whether the pattern stands for no number.
    pub fn not_a_number(self) -> (r: bool)
        ensures
            r == self.is_nan(),
    {
        if self.bits >= SIGN_BIT {
            self.bits - SIGN_BIT > INFINITY_BITS
        } else {
            self.bits > INFINITY_BITS
        }
    }

    /// Whether the number is finite.
    pub fn finite(self) -> (r: bool)
        ensures
            r == self.is_finite(),
    {
        if self.bits >= SIGN_BIT {
            self.bits - SIGN_BIT < INFINITY_BITS
        } else {
            self.bits < INFINITY_BITS
        }
    }

    /// The product of a number from zero to one and a finite number without sign.
    pub fn product(self, other: Binary64) -> (r: Binary64)
        requires
            self.in_unit_range(),
            other.bits < INFINITY_BITS,
        ensures
            r.units() == times(self.units(), other.units()),
            r.bits <= other.bits,
    {
        let (ma, ea) = split_pattern(self.bits);
        let (mb, eb) = split_pattern(other.bits);
        let ghost ua = self.units();
        let ghost ub = other.units();
        proof {
            lemma2_to64();
            lemma2_to64_rest();
            lemma_pow2_adds(53, 53);
            assert(ma * mb < 0x0020_0000_0000_0000 * 0x0020_0000_0000_0000) by (nonlinear_arith)
                requires
                    0 <= ma < 0x0020_0000_0000_0000,
                    0 <= mb < 0x0020_0000_0000_0000,
            ;
        }
        let n: u128 = ma as u128 * mb as u128;
        let x: i32 = ea as i32 + eb as i32 - 1074;
        proof {
            assert(pow2(106) == 0x0020_0000_0000_0000 * 0x0020_0000_0000_0000);
            lemma_bit_length_at_most(n as nat, 106);
        }
        let (m, e) = round_scaled(n, x, PRECISION);
        proof {
            let sa = pow2(ea as nat);
            let sb = pow2(eb as nat);
            lemma_pow2_adds(ea as nat, eb as nat);
            lemma_pow2_pos((ea + eb) as nat);
            assert(ua * ub == n * (sa * sb)) by (nonlinear_arith)
                requires
                    ua == ma * sa,
                    ub == mb * sb,
                    n == ma * mb,
            ;
            if x >= 0 {
                lemma_pow2_adds(x as nat, 1074);
                lemma_pow2_pos(1074);
                lemma_mul_is_associative(n as int, pow2(x as nat) as int, one() as int);
                lemma_round_common_factor(53, n as nat * pow2(x as nat), 1, one());
                lemma_mul_basics(one() as int);
            } else {
                lemma_pow2_adds((-x) as nat, (ea + eb) as nat);
                lemma_pow2_pos((-x) as nat);
                lemma_round_common_factor(53, n as nat, pow2((-x) as nat), pow2((ea + eb) as nat));
            }
            assert(m * pow2(e as nat) == times(ua, ub));
            lemma_times_at_most(ua, ub, self.bits, other.bits);
            lemma_pattern_weak_order(other.bits, (INFINITY_BITS - 1) as u64);
        }
        let bits: u64 = encode(m, e);
        proof {
            if bits > other.bits {
                lemma_pattern_order(other.bits, bits);
            }
        }
        Binary64 { bits }
    }
}

proof fn lemma_zero_pattern(bits: u64)
    ensures
        pattern_units(bits) == 0 <==> bits == 0,
{
    if bits > 0 {
        lemma_pattern_order(0, bits);
    }
}

pub proof fn lemma_pattern_weak_order(a: u64, b: u64)
    requires
        a <= b,
    ensures
        pattern_units(a) <= pattern_units(b),
{
    if a < b {
        lemma_pattern_order(a, b);
    }
}

/// Multiplying by a number from zero to one does not increase.
pub proof fn lemma_times_at_most(a: nat, b: nat, a_bits: u64, b_bits: u64)
    requires
        a == pattern_units(a_bits),
        b == pattern_units(b_bits),
        a_bits <= ONE_BITS,
    ensures
        times(a, b) <= b,
{
    lemma_one_units();
    lemma_pattern_weak_order(a_bits, ONE_BITS);
    lemma_pattern_representable(b_bits);
    lemma_mul_inequality(a as int, one() as int, b as int);
    lemma_mul_is_commutative(b as int, one() as int);
    lemma_round_at_most(53, a * b, one(), b);
}

/// A number that is small beside another is lost in their sum.
proof fn lemma_sum_absorbs(m: nat, e: nat, v: nat)
    requires
        0x0010_0000_0000_0000 <= m < 0x0020_0000_0000_0000,
        2 * v < pow2(e),
    ensures
        plus(m * pow2(e), v) == m * pow2(e),
{
    lemma2_to64();
    lemma2_to64_rest();
    let s = pow2(e);
    let n = m * s + v;
    lemma_pow2_pos(e);
    lemma_pow2_adds(52, e);
    lemma_pow2_adds(53, e);
    lemma_mul_inequality(pow2(52) as int, m as int, s as int);
    lemma_mul_inequality((m + 1) as int, pow2(53) as int, s as int);
    lemma_mul_is_distributive_add_other_way(s as int, m as int, 1);
    assert(pow2((52 + e) as nat) <= n < pow2((53 + e) as nat));
    lemma_bit_length_unique(n, 52 + e);
    assert(n / 1 == n);
    assert(excess_bits(53, n, 1) == e);
    lemma_fundamental_div_mod_converse(n as int, s as int, m as int, v as int);
    assert(1 * s == s);
    assert(nearest_even(n, s) == m);
}

/// A number that is small beside another is lost in their difference.
proof fn lemma_difference_absorbs(m: nat, e: nat, v: nat)
    requires
        0x0010_0000_0000_0000 <= m < 0x0020_0000_0000_0000,
        4 * v < pow2(e),
        e > 0,
    ensures
        v <= m * pow2(e),
        round_to_precision(53, (m * pow2(e) - v) as nat, 1) == m * pow2(e),
{
    lemma2_to64();
    lemma2_to64_rest();
    let s = pow2(e);
    lemma_pow2_pos(e);
    lemma_mul_inequality(1, m as int, s as int);
    let n = (m * s - v) as nat;
    lemma_pow2_adds(52, e);
    lemma_pow2_adds(53, e);
    lemma_mul_is_distributive_sub_other_way(s as int, m as int, 1);
    assert(n / 1 == n);
    if v == 0 {
        lemma_mul_inequality(pow2(52) as int, m as int, s as int);
        lemma_mul_strict_inequality(m as int, pow2(53) as int, s as int);
        lemma_bit_length_unique(n, 52 + e);
        assert(1 * s == s);
        lemma_fundamental_div_mod_converse(n as int, s as int, m as int, 0);
    } else if m > 0x0010_0000_0000_0000 {
        lemma_mul_inequality(pow2(52) as int, (m - 1) as int, s as int);
        lemma_mul_strict_inequality(m as int, pow2(53) as int, s as int);
        lemma_bit_length_unique(n, 52 + e);
        assert(excess_bits(53, n, 1) == e);
        assert(1 * s == s);
        lemma_fundamental_div_mod_converse(n as int, s as int, m - 1, s - v);
        assert(nearest_even(n, s) == m);
    } else {
        let h = pow2((e - 1) as nat);
        lemma_pow2_unfold(e);
        lemma_pow2_adds(51, e);
        lemma_pow2_unfold(52 + e);
        lemma_pow2_pos((e - 1) as nat);
        lemma_pow2_adds(53, (e - 1) as nat);
        lemma_pow2_pos(51 + e);
        lemma_mul_inequality(1, pow2(51) as int, s as int);
        assert(pow2((51 + e) as nat) <= n < pow2((52 + e) as nat));
        lemma_bit_length_unique(n, 51 + e);
        assert(excess_bits(53, n, 1) == e - 1);
        assert(1 * h == h);
        let top: nat = 0x0020_0000_0000_0000;
        lemma_mul_is_distributive_sub_other_way(h as int, top as int, 1);
        assert(n == (top - 1) * h + (h - v));
        lemma_fundamental_div_mod_converse(n as int, h as int, top - 1, h - v);
        assert(nearest_even(n, h) == top);
    }
}

/// A significand below `2^53` that ends far below another one's last bit.
proof fn lemma_far_below(m: nat, e: nat, top: nat)
    requires
        m < 0x0020_0000_0000_0000,
        e + 64 < top,
    ensures
        4 * (m * pow2(e)) < pow2(top),
{
    lemma2_to64();
    lemma2_to64_rest();
    lemma_pow2_pos(e);
    lemma_pow2_adds(64, e);
    lemma_mul_strict_inequality(4 * m as int, pow2(64) as int, pow2(e) as int);
    lemma_mul_is_associative(4, m as int, pow2(e) as int);
    lemma_pow2_strictly_increases((64 + e) as nat, top);
}

/// Adding at most four to a number that can be added leaves one that can be
/// added, and that is no smaller.
pub proof fn lemma_small_summand(a: u64, b: u64, r: u64)
    requires
        a < SUMMAND_LIMIT,
        b <= 0x4010_0000_0000_0000,
        pattern_units(r) == plus(pattern_units(a), pattern_units(b)),
    ensures
        a <= r < SUMMAND_LIMIT,
{
    let limit: nat = 0x0010_0000_0000_0000;
    let middle: u64 = 0x6000_0000_0000_0000;
    let above: u64 = 0x6010_0000_0000_0000;
    let ua = pattern_units(a);
    let ub = pattern_units(b);
    lemma_pattern_representable(a);
    lemma_round_at_least(53, ua + ub, 1, ua);
    if r < a {
        lemma_pattern_order(r, a);
    }
    if a < middle {
        lemma_pattern_order(a, middle);
        lemma_pattern_order(b, middle);
        assert(0x6000_0000_0000_0000nat / limit == 1536 && 0x6000_0000_0000_0000nat % limit == 0);
        assert(0x6010_0000_0000_0000nat / limit == 1537 && 0x6010_0000_0000_0000nat % limit == 0);
        lemma_pow2_unfold(1536);
        assert(limit * pow2(1536) == 2 * (limit * pow2(1535))) by (nonlinear_arith)
            requires
                pow2(1536) == 2 * pow2(1535),
        ;
        assert(pattern_units(above) == 2 * pattern_units(middle));
        lemma_pattern_representable(above);
        lemma_round_at_most(53, ua + ub, 1, pattern_units(above));
        if r > above {
            lemma_pattern_order(above, r);
        }
    } else {
        let e = (a as nat / limit - 1) as nat;
        let m = limit + a as nat % limit;
        let eb = if b as nat / limit == 0 {
            0nat
        } else {
            (b as nat / limit - 1) as nat
        };
        let mb = if b as nat / limit == 0 {
            b as nat % limit
        } else {
            limit + b as nat % limit
        };
        lemma2_to64();
        assert(ub == mb * pow2(eb)) by {
            assert((b as nat % limit) * pow2(0) == b as nat % limit);
        }
        lemma_far_below(mb, eb, e);
        lemma_sum_absorbs(m, e, ub);
        assert(pattern_units(r) == ua);
        if a < r {
            lemma_pattern_order(a, r);
        }
    }
}

/// Adding at most four to a finite number gives a finite number.
pub proof fn lemma_small_sum_finite(a: u64, b: u64)
    requires
        a < INFINITY_BITS,
        b <= 0x4010_0000_0000_0000,
    ensures
        plus(pattern_units(a), pattern_units(b)) <= greatest(),
{
    let limit: nat = 0x0010_0000_0000_0000;
    let middle: u64 = 0x6000_0000_0000_0000;
    let ua = pattern_units(a);
    let ub = pattern_units(b);
    if a < middle {
        lemma_plus_bound(a, b);
    } else {
        let e = (a as nat / limit - 1) as nat;
        let m = limit + a as nat % limit;
        let eb = if b as nat / limit == 0 {
            0nat
        } else {
            (b as nat / limit - 1) as nat
        };
        let mb = if b as nat / limit == 0 {
            b as nat % limit
        } else {
            limit + b as nat % limit
        };
        lemma2_to64();
        assert(ub == mb * pow2(eb)) by {
            assert((b as nat % limit) * pow2(0) == b as nat % limit);
        }
        lemma_far_below(mb, eb, e);
        lemma_sum_absorbs(m, e, ub);
        lemma_pattern_weak_order(a, (INFINITY_BITS - 1) as u64);
    }
}

impl Binary64 {
    /// The sum of two numbers without sign that are not too large to be added.
    pub fn sum(self, other: Binary64) -> (r: Binary64)
        requires
            self.bits < SUMMAND_LIMIT,
            other.bits < SUMMAND_LIMIT,
        ensures
            r.bits < INFINITY_BITS,
            r.units() == plus(self.units(), other.units()),
    {
        proof {
            lemma_plus_bound(self.bits, other.bits);
        }
        let (m, e) = self.sum_parts(other);
        Binary64 { bits: encode(m, e) }
    }

    /// The sum of two finite numbers without sign, where it is finite.
    pub fn checked_sum(self, other: Binary64) -> (r: Option<Binary64>)
        requires
            self.bits < INFINITY_BITS,
            other.bits < INFINITY_BITS,
        ensures
            match r {
                Some(total) => total.bits < INFINITY_BITS && total.units() == plus(
                    self.units(),
                    other.units(),
                ),
                None => plus(self.units(), other.units()) > greatest(),
            },
    {
        let (m, e) = self.sum_parts(other);
        if fits(m, e) {
            Some(Binary64 { bits: encode(m, e) })
        } else {
            None
        }
    }

    /// The significand and the exponent of the sum of two finite numbers without sign.
    fn sum_parts(self, other: Binary64) -> (r: (u64, u32))
        requires
            self.bits < INFINITY_BITS,
            other.bits < INFINITY_BITS,
        ensures
            r.0 <= 0x0020_0000_0000_0000,
            r.1 <= 4200,
            r.0 * pow2(r.1 as nat) == plus(self.units(), other.units()),
    {
        let (high, low) = if self.bits >= other.bits {
            (self, other)
        } else {
            (other, self)
        };
        let (ma, ea) = split_pattern(high.bits);
        let (mb, eb) = split_pattern(low.bits);
        let ghost ua = high.units();
        let ghost ub = low.units();
        proof {
            lemma2_to64();
            lemma2_to64_rest();
            lemma_exponents_ordered(low.bits, high.bits);
        }
        let gap: u32 = ea - eb;
        if gap > 64 {
            proof {
                lemma_far_below(mb as nat, eb as nat, ea as nat);
                lemma_sum_absorbs(ma as nat, ea as nat, ub);
            }
            return (ma, ea);
        }
        let scale: u128 = power_of_two(gap);
        proof {
            lemma_aligned(ma as nat, gap as nat);
        }
        let n: u128 = ma as u128 * scale + mb as u128;
        proof {
            lemma_pow2_adds(53, 64);
            lemma_pow2_unfold(118);
            lemma_bit_length_at_most(n as nat, 118);
        }
        let (m, e) = round_scaled(n, eb as i32, PRECISION);
        proof {
            let sb = pow2(eb as nat);
            lemma_pow2_adds(gap as nat, eb as nat);
            assert(n * sb == ua + ub) by (nonlinear_arith)
                requires
                    n == ma * scale + mb,
                    ua == ma * (scale * sb),
                    ub == mb * sb,
            ;
            assert(m * pow2(e as nat) == plus(ua, ub));
        }
        (m, e)
    }

    /// The distance between two finite numbers without sign.
    pub fn distance_to(self, other: Binary64) -> (r: Binary64)
        requires
            self.bits < INFINITY_BITS,
            other.bits < INFINITY_BITS,
        ensures
            r.bits < INFINITY_BITS,
            self.in_unit_range() && other.in_unit_range() ==> r.in_unit_range(),
            r.units() == distance(self.units(), other.units()),
    {
        let (high, low) = if self.bits >= other.bits {
            (self, other)
        } else {
            (other, self)
        };
        let (ma, ea) = split_pattern(high.bits);
        let (mb, eb) = split_pattern(low.bits);
        let ghost ua = high.units();
        let ghost ub = low.units();
        proof {
            lemma2_to64();
            lemma2_to64_rest();
            lemma_exponents_ordered(low.bits, high.bits);
            lemma_pattern_weak_order(low.bits, high.bits);
        }
        let gap: u32 = ea - eb;
        if gap > 64 {
            proof {
                lemma_far_below(mb as nat, eb as nat, ea as nat);
                lemma_difference_absorbs(ma as nat, ea as nat, ub);
            }
            return high;
        }
        let scale: u128 = power_of_two(gap);
        proof {
            lemma_aligned(ma as nat, gap as nat);
            let sb = pow2(eb as nat);
            lemma_pow2_pos(eb as nat);
            lemma_pow2_adds(gap as nat, eb as nat);
            assert(ma * scale >= mb) by (nonlinear_arith)
                requires
                    ua == ma * (scale * sb),
                    ub == mb * sb,
                    ub <= ua,
                    sb > 0,
            ;
        }
        let n: u128 = ma as u128 * scale - mb as u128;
        proof {
            lemma_pow2_adds(53, 64);
            lemma_bit_length_at_most(n as nat, 117);
        }
        let (m, e) = round_scaled(n, eb as i32, PRECISION);
        proof {
            let sb = pow2(eb as nat);
            assert(n * sb == ua - ub) by (nonlinear_arith)
                requires
                    n == ma * scale - mb,
                    ua == ma * (scale * sb),
                    ub == mb * sb,
            ;
            assert(m * pow2(e as nat) == distance(ua, ub));
            lemma_pattern_representable(high.bits);
            lemma_round_at_most(53, (ua - ub) as nat, 1, ua);
            lemma_pattern_weak_order(high.bits, (INFINITY_BITS - 1) as u64);
        }
        let bits: u64 = encode(m, e);
        proof {
            if bits > high.bits {
                lemma_pattern_order(high.bits, bits);
            }
        }
        Binary64 { bits }
    }
}

/// The exponent does not decrease with the pattern.
proof fn lemma_exponents_ordered(a: u64, b: u64)
    requires
        a <= b,
    ensures
        a / FRACTION_LIMIT <= b / FRACTION_LIMIT,
{
}

proof fn lemma_aligned(m: nat, gap: nat)
    requires
        m < 0x0020_0000_0000_0000,
        gap <= 64,
    ensures
        m * pow2(gap) < pow2(53) * pow2(64),
        pow2(53) * pow2(64) < 0x0080_0000_0000_0000_0000_0000_0000_0000,
{
    lemma2_to64();
    lemma2_to64_rest();
    if gap < 64 {
        lemma_pow2_strictly_increases(gap, 64);
    }
    lemma_pow2_pos(gap);
    lemma_mul_strict_inequality(m as int, pow2(53) as int, pow2(gap) as int);
    lemma_mul_inequality(pow2(gap) as int, pow2(64) as int, pow2(53) as int);
}

/// Two summands within the limit sum to a finite number.
proof fn lemma_plus_bound(a: u64, b: u64)
    requires
        a < SUMMAND_LIMIT,
        b < SUMMAND_LIMIT,
    ensures
        plus(pattern_units(a), pattern_units(b)) <= pattern_units((INFINITY_BITS - 1) as u64),
{
    let top: u64 = (SUMMAND_LIMIT - 1) as u64;
    let max: u64 = (INFINITY_BITS - 1) as u64;
    lemma_pattern_weak_order(a, top);
    lemma_pattern_weak_order(b, top);
    assert(top as nat / 0x0010_0000_0000_0000 == 2045);
    assert(max as nat / 0x0010_0000_0000_0000 == 2046);
    assert(top as nat % 0x0010_0000_0000_0000 == max as nat % 0x0010_0000_0000_0000);
    let m: nat = 0x0010_0000_0000_0000 + max as nat % 0x0010_0000_0000_0000;
    lemma_pow2_unfold(2045);
    let h = pow2(2044);
    assert(m * (2 * h) == 2 * (m * h)) by (nonlinear_arith);
    lemma_pattern_representable(max);
    lemma_round_at_most(53, pattern_units(a) + pattern_units(b), 1, pattern_units(max));
}

/// The quotient of two numbers given in units.
pub open spec fn quotient(a: nat, b: nat) -> nat {
    round_to_precision(53, a * one(), b)
}

/// Brings the quotient of two significands to that of the numbers they stand for.
proof fn lemma_quotient_aligned(ma: nat, ea: nat, mb: nat, eb: nat, j: nat, n: nat, x: int)
    requires
        mb > 0,
        n == ma * pow2(j),
        x == ea + 1074 - eb - j,
    ensures
        mb * pow2(eb) > 0,
        quotient(ma * pow2(ea), mb * pow2(eb)) == round_to_precision(
            53,
            scaled_num(n, x),
            mb * scaled_den(x),
        ),
{
    let ua = ma * pow2(ea);
    let ub = mb * pow2(eb);
    let sj = pow2(j);
    lemma_pow2_pos(ea + 1074);
    lemma_pow2_pos(eb);
    lemma_pow2_pos(eb + j);
    lemma_pow2_pos(j);
    assert(ub > 0) by (nonlinear_arith)
        requires
            ub == mb * pow2(eb),
            mb > 0,
            pow2(eb) > 0,
    ;
    lemma_pow2_adds(ea, 1074);
    lemma_pow2_adds(eb, j);
    lemma_round_common_factor(53, ua * one(), ub, sj);
    let big = pow2(ea + 1074);
    assert((ua * one()) * sj == n * big) by (nonlinear_arith)
        requires
            ua == ma * pow2(ea),
            big == pow2(ea) * one(),
            n == ma * sj,
    ;
    assert(ub * sj == mb * pow2(eb + j)) by (nonlinear_arith)
        requires
            ub == mb * pow2(eb),
            pow2(eb + j) == pow2(eb) * sj,
    ;
    if x >= 0 {
        lemma_pow2_adds(x as nat, eb + j);
        lemma_mul_is_associative(n as int, pow2(x as nat) as int, pow2(eb + j) as int);
        lemma_round_common_factor(53, n * pow2(x as nat), mb, pow2(eb + j));
        assert(mb * 1 == mb);
    } else {
        let k = (-x) as nat;
        lemma_pow2_pos(k);
        lemma_pow2_adds(k, ea + 1074);
        lemma_mul_is_associative(mb as int, pow2(k) as int, big as int);
        assert(mb * pow2(k) > 0) by (nonlinear_arith)
            requires
                mb > 0,
                pow2(k) > 0,
        ;
        lemma_round_common_factor(53, n, mb * pow2(k), big);
    }
}

impl Binary64 {
    /// The quotient of a number without sign by one that is no smaller.
    pub fn quotient_by(self, other: Binary64) -> (r: Binary64)
        requires
            self.bits <= other.bits,
            0 < other.bits < INFINITY_BITS,
        ensures
            r.in_unit_range(),
            r.units() == quotient(self.units(), other.units()),
    {
        let (ma, ea) = split_pattern(self.bits);
        let (mb, eb) = split_pattern(other.bits);
        let ghost ua = self.units();
        let ghost ub = other.units();
        proof {
            lemma2_to64();
            lemma2_to64_rest();
            lemma_zero_pattern(other.bits);
            lemma_one_units();
            lemma_mul_basics(pow2(eb as nat) as int);
        }
        if ma == 0 {
            proof {
                lemma_mul_basics(pow2(ea as nat) as int);
                lemma_mul_basics(one() as int);
                lemma_round_zero(53, ub);
            }
            return Binary64 { bits: 0 };
        }
        let mut n: u64 = ma;
        let mut j: u32 = 0;
        while n < FRACTION_LIMIT
            invariant
                0 < n < 0x0020_0000_0000_0000,
                ma > 0,
                n == ma * pow2(j as nat),
                n >= FRACTION_LIMIT || n >= pow2(j as nat),
                j <= 52,
            decreases 0x0020_0000_0000_0000 - n,
        {
            proof {
                lemma_pow2_unfold((j + 1) as nat);
                lemma_pow2_pos(j as nat);
                assert(ma * (2 * pow2(j as nat)) == 2 * (ma * pow2(j as nat))) by (nonlinear_arith);
                lemma2_to64_rest();
                lemma_mul_inequality(1, ma as int, pow2((j + 1) as nat) as int);
                if j >= 52 {
                    lemma_mul_inequality(1, ma as int, pow2(j as nat) as int);
                }
            }
            n = n * 2;
            j = j + 1;
        }
        let x: i32 = ea as i32 + 1074 - eb as i32 - j as i32;
        let (m, e) = round_quotient(n, mb, x, PRECISION);
        proof {
            lemma_quotient_aligned(
                ma as nat,
                ea as nat,
                mb as nat,
                eb as nat,
                j as nat,
                n as nat,
                x as int,
            );
            lemma_pattern_weak_order(self.bits, other.bits);
            lemma_mul_inequality(ua as int, ub as int, one() as int);
            lemma_mul_is_commutative(one() as int, ub as int);
            lemma_pattern_representable(ONE_BITS);
            lemma_round_at_most(53, ua * one(), ub, one());
            lemma_pattern_weak_order(ONE_BITS, (INFINITY_BITS - 1) as u64);
        }
        let bits: u64 = encode(m, e);
        proof {
            if bits > ONE_BITS {
                lemma_pattern_order(ONE_BITS, bits);
            }
        }
        Binary64 { bits }
    }
}

/// The double-precision number nearest to the fraction `num / den`, in units,
/// where the fraction scaled by `2^j` has 53 bits before the point.
pub proof fn lemma_nearest_to_fraction(num: nat, den: nat, j: nat, m: nat)
    requires
        den > 0,
        j <= 1074,
        0x0010_0000_0000_0000 * den <= num * pow2(j) < 0x0020_0000_0000_0000 * den,
        m == nearest_even(num * pow2(j), den),
    ensures
        round_to_precision(53, num * one(), den) == m * pow2((1074 - j) as nat),
{
    let f = (1074 - j) as nat;
    lemma2_to64();
    lemma2_to64_rest();
    lemma_pow2_adds(j, f);
    lemma_pow2_pos(f);
    lemma_mul_is_associative(num as int, pow2(j) as int, pow2(f) as int);
    let big = num * pow2(j);
    lemma_scaled_length(big, den, 53, f as int);
    assert(den * 1 == den);
    assert(excess_bits(53, num * one(), den) == f);
    lemma_nearest_even_common_factor(big, den, pow2(f));
}

} // verus!
