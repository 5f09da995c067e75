//! Rounding of exact quotients to a fixed number of significant bits.
//!
//! A binary format is described by its precision and by its smallest positive
//! value, which serves as the unit: every finite value of the format is a whole
//! number of units. An exact result is a quotient of units, and
//! `round_to_precision` says which value of the format it is rounded to.
use vstd::arithmetic::div_mod::*;
use vstd::arithmetic::mul::*;
use vstd::arithmetic::power2::*;
use vstd::prelude::*;

verus! {

/// Number of binary digits of `n`; zero has none.
pub open spec fn bit_length(n: nat) -> nat
    decreases n,
{
    if n == 0 {
        0
    } else {
        1 + bit_length(n / 2)
    }
}

/// The integer nearest to `num / den`; of two equally near ones, the even one.
pub open spec fn nearest_even(num: nat, den: nat) -> nat {
    let q = num / den;
    let r = num % den;
    if 2 * r < den || (2 * r == den && q % 2 == 0) {
        q
    } else {
        q + 1
    }
}

/// Binary places that a quotient has beyond `prec` significant ones.
pub open spec fn excess_bits(prec: nat, num: nat, den: nat) -> nat {
    let len = bit_length(num / den);
    if len > prec {
        (len - prec) as nat
    } else {
        0
    }
}

/// `num / den` units rounded to `prec` significant bits, ties to even. Below
/// `prec` bits the result is rounded to a whole number of units.
pub open spec fn round_to_precision(prec: nat, num: nat, den: nat) -> nat {
    let scale = pow2(excess_bits(prec, num, den));
    nearest_even(num, den * scale) * scale
}

pub proof fn lemma_bit_length_bounds(n: nat)
    requires
        n > 0,
    ensures
        bit_length(n) > 0,
        pow2((bit_length(n) - 1) as nat) <= n < pow2(bit_length(n)),
    decreases n,
{
    reveal(pow2);
    if n == 1 {
        assert(bit_length(0) == 0);
        assert(bit_length(1) == 1 + bit_length(0));
        lemma2_to64();
    } else {
        let h = n / 2;
        lemma_bit_length_bounds(h);
        let k = bit_length(h);
        lemma_pow2_unfold(k);
        lemma_pow2_unfold(k + 1);
    }
}

pub proof fn lemma_bit_length_unique(n: nat, k: nat)
    requires
        pow2(k) <= n < pow2(k + 1),
    ensures
        bit_length(n) == k + 1,
{
    lemma_pow2_pos(k);
    lemma_bit_length_bounds(n);
    let l = bit_length(n);
    if l < k + 1 {
        if l < k {
            lemma_pow2_strictly_increases(l, k);
        }
    } else if l > k + 1 {
        if l - 1 > k + 1 {
            lemma_pow2_strictly_increases(k + 1, (l - 1) as nat);
        }
    }
}

pub proof fn lemma_bit_length_at_most(n: nat, k: nat)
    requires
        n < pow2(k),
    ensures
        bit_length(n) <= k,
{
    if n > 0 {
        lemma_bit_length_bounds(n);
        let l = bit_length(n);
        if l > k {
            if l - 1 > k {
                lemma_pow2_strictly_increases(k, (l - 1) as nat);
            }
        }
    }
}

pub proof fn lemma_bit_length_scaled(n: nat, x: nat)
    requires
        n > 0,
    ensures
        n * pow2(x) > 0,
        bit_length(n * pow2(x)) == bit_length(n) + x,
{
    lemma_bit_length_bounds(n);
    let l = bit_length(n);
    let lo = pow2((l - 1) as nat);
    let hi = pow2(l);
    let s = pow2(x);
    lemma_pow2_pos(x);
    lemma_pow2_adds((l - 1) as nat, x);
    lemma_pow2_adds(l, x);
    assert(lo * s <= n * s < hi * s) by (nonlinear_arith)
        requires
            lo <= n < hi,
            s > 0,
    ;
    assert(n * s > 0) by (nonlinear_arith)
        requires
            n > 0,
            s > 0,
    ;
    lemma_bit_length_unique(n * s, (l - 1 + x) as nat);
}

pub proof fn lemma_bit_length_shifted(n: nat, k: nat)
    requires
        n > 0,
    ensures
        bit_length(n / pow2(k)) == if bit_length(n) > k {
            (bit_length(n) - k) as nat
        } else {
            0
        },
{
    lemma_bit_length_bounds(n);
    let l = bit_length(n);
    let s = pow2(k);
    lemma_pow2_pos(k);
    let q = n / s;
    lemma_fundamental_div_mod(n as int, s as int);
    lemma_mod_bound(n as int, s as int);
    if l > k {
        lemma_pow2_adds((l - 1 - k) as nat, k);
        lemma_pow2_adds((l - k) as nat, k);
        let lo = pow2((l - 1 - k) as nat);
        let hi = pow2((l - k) as nat);
        assert(lo <= q < hi) by (nonlinear_arith)
            requires
                lo * s <= n < hi * s,
                n == s * q + n % s,
                0 <= n % s < s,
                s > 0,
        ;
        lemma_bit_length_unique(q, (l - 1 - k) as nat);
    } else {
        if l < k {
            lemma_pow2_strictly_increases(l, k);
        }
        assert(q == 0) by (nonlinear_arith)
            requires
                n < s,
                n == s * q + n % s,
                0 <= n % s,
                s > 0,
                q >= 0,
        ;
    }
}

/// A common factor does not change the nearest integer.
pub proof fn lemma_nearest_even_common_factor(a: nat, b: nat, c: nat)
    requires
        b > 0,
        c > 0,
    ensures
        b * c > 0,
        nearest_even(a * c, b * c) == nearest_even(a, b),
{
    let q = a / b;
    let r = a % b;
    lemma_fundamental_div_mod(a as int, b as int);
    lemma_mod_bound(a as int, b as int);
    assert(b * c > 0) by (nonlinear_arith)
        requires
            b > 0,
            c > 0,
    ;
    assert(a * c == q * (b * c) + r * c) by (nonlinear_arith)
        requires
            a == b * q + r,
    ;
    assert(0 <= r * c < b * c) by (nonlinear_arith)
        requires
            0 <= r < b,
            c > 0,
    ;
    lemma_fundamental_div_mod_converse((a * c) as int, (b * c) as int, q as int, (r * c) as int);
    assert((2 * r < b) == (2 * (r * c) < b * c) && (2 * r == b) == (2 * (r * c) == b * c)) by (nonlinear_arith)
        requires
            c > 0,
            r >= 0,
            b > 0,
    ;
}

/// A whole quotient is its own nearest integer.
pub proof fn lemma_nearest_even_whole(q: nat, d: nat)
    requires
        d > 0,
    ensures
        nearest_even(q * d, d) == q,
{
    lemma_fundamental_div_mod_converse((q * d) as int, d as int, q as int, 0);
}

pub proof fn lemma_nearest_even_bounds(num: nat, den: nat)
    requires
        den > 0,
    ensures
        num / den <= nearest_even(num, den) <= num / den + 1,
        2 * num <= (2 * nearest_even(num, den) + 1) * den,
        2 * nearest_even(num, den) * den <= 2 * num + den,
{
    let q = num / den;
    let r = num % den;
    lemma_fundamental_div_mod(num as int, den as int);
    lemma_mod_bound(num as int, den as int);
    let m = nearest_even(num, den);
    if m == q {
        assert(2 * num <= (2 * m + 1) * den && 2 * m * den <= 2 * num + den) by (nonlinear_arith)
            requires
                m == q,
                num == den * q + r,
                2 * r <= den,
                0 <= r < den,
        ;
    } else {
        assert(2 * num <= (2 * m + 1) * den && 2 * m * den <= 2 * num + den) by (nonlinear_arith)
            requires
                m == q + 1,
                num == den * q + r,
                2 * r >= den,
                0 <= r < den,
        ;
    }
}

/// `v` units is a value of the format with `prec` significant bits.
pub open spec fn representable(prec: nat, v: nat) -> bool {
    exists|m: nat, f: nat| #![trigger m * pow2(f)] m < pow2(prec) && v == m * pow2(f)
}

/// `m * 2^f` is a value of the format also where `m` is the full `2^prec`.
pub proof fn lemma_representable(prec: nat, m: nat, f: nat)
    requires
        prec > 0,
        m <= pow2(prec),
    ensures
        representable(prec, m * pow2(f)),
{
    if m == pow2(prec) {
        let h = pow2((prec - 1) as nat);
        lemma_pow2_unfold(prec);
        lemma_pow2_unfold(f + 1);
        lemma_pow2_pos((prec - 1) as nat);
        assert(m * pow2(f) == h * pow2(f + 1)) by (nonlinear_arith)
            requires
                m == 2 * h,
                pow2(f + 1) == 2 * pow2(f),
        ;
    }
}

/// A value of the format that is large enough is a multiple of the spacing.
pub proof fn lemma_multiple_of_spacing(prec: nat, v: nat, e: nat)
    requires
        prec > 0,
        representable(prec, v),
        e > 0 ==> v >= pow2((prec + e - 1) as nat),
    ensures
        exists|w: nat| v == #[trigger] (w * pow2(e)),
{
    lemma2_to64();
    let (m, f): (nat, nat) = choose|m: nat, f: nat|
        #![trigger m * pow2(f)]
        m < pow2(prec) && v == m * pow2(f);
    if e == 0 {
        assert(v == v * pow2(e));
    } else {
        assert(f >= e) by {
            lemma_pow2_pos(f);
            if f < e {
                assert(m * pow2(f) < pow2(prec) * pow2(f)) by (nonlinear_arith)
                    requires
                        m < pow2(prec),
                        pow2(f) > 0,
                ;
                lemma_pow2_adds(prec, f);
                if f < e - 1 {
                    lemma_pow2_strictly_increases(prec + f, (prec + e - 1) as nat);
                }
                assert(false);
            }
        }
        lemma_pow2_adds((f - e) as nat, e);
        lemma_mul_is_associative(m as int, pow2((f - e) as nat) as int, pow2(e) as int);
        assert(v == (m * pow2((f - e) as nat)) * pow2(e));
    }
}

proof fn lemma_nearest_even_at_most(num: nat, den: nat, w: nat)
    requires
        den > 0,
        num <= w * den,
    ensures
        nearest_even(num, den) <= w,
{
    lemma_fundamental_div_mod(num as int, den as int);
    lemma_mod_bound(num as int, den as int);
    let q = num / den;
    let r = num % den;
    if q >= w {
        assert(q == w && r == 0) by (nonlinear_arith)
            requires
                q >= w,
                num == den * q + r,
                num <= w * den,
                r >= 0,
                den > 0,
        ;
    }
}

proof fn lemma_nearest_even_at_least(num: nat, den: nat, w: nat)
    requires
        den > 0,
        w * den <= num,
    ensures
        w <= nearest_even(num, den),
{
    lemma_fundamental_div_mod(num as int, den as int);
    lemma_mod_bound(num as int, den as int);
    let q = num / den;
    let r = num % den;
    assert(q >= w) by (nonlinear_arith)
        requires
            num == den * q + r,
            w * den <= num,
            r < den,
            den > 0,
    ;
}

/// The leading bits of a quotient that is longer than the precision.
pub proof fn lemma_excess_bits(prec: nat, num: nat, den: nat)
    requires
        prec > 0,
        den > 0,
        excess_bits(prec, num, den) > 0,
    ensures
        pow2((prec + excess_bits(prec, num, den) - 1) as nat) <= num / den,
        pow2((prec + excess_bits(prec, num, den) - 1) as nat) * den <= num,
{
    let q = num / den;
    lemma_bit_length_bounds(q);
    lemma_fundamental_div_mod(num as int, den as int);
    lemma_mod_bound(num as int, den as int);
    let e = excess_bits(prec, num, den);
    let lead = pow2((prec + e - 1) as nat);
    assert(lead * den <= num) by (nonlinear_arith)
        requires
            lead <= q,
            num == den * q + num % den,
            num % den >= 0,
            den > 0,
    ;
}

/// Rounding never carries a quotient past a value of the format above it.
pub proof fn lemma_round_at_most(prec: nat, num: nat, den: nat, v: nat)
    requires
        prec > 0,
        den > 0,
        representable(prec, v),
        num <= v * den,
    ensures
        round_to_precision(prec, num, den) <= v,
{
    let e = excess_bits(prec, num, den);
    let s = pow2(e);
    lemma_pow2_pos(e);
    if e > 0 {
        lemma_excess_bits(prec, num, den);
        let lead = pow2((prec + e - 1) as nat);
        assert(lead <= v) by (nonlinear_arith)
            requires
                lead * den <= num,
                num <= v * den,
                den > 0,
        ;
    }
    lemma_multiple_of_spacing(prec, v, e);
    let w = choose|w: nat| v == #[trigger] (w * pow2(e));
    assert(num <= w * (den * s)) by (nonlinear_arith)
        requires
            num <= v * den,
            v == w * s,
    ;
    assert(den * s > 0) by (nonlinear_arith)
        requires
            den > 0,
            s > 0,
    ;
    lemma_nearest_even_at_most(num, den * s, w);
    let m = nearest_even(num, den * s);
    assert(m * s <= w * s) by (nonlinear_arith)
        requires
            m <= w,
            s > 0,
    ;
}

/// Rounding never carries a quotient past a value of the format below it.
pub proof fn lemma_round_at_least(prec: nat, num: nat, den: nat, v: nat)
    requires
        prec > 0,
        den > 0,
        representable(prec, v),
        v * den <= num,
    ensures
        v <= round_to_precision(prec, num, den),
{
    let e = excess_bits(prec, num, den);
    let s = pow2(e);
    lemma_pow2_pos(e);
    assert(den * s > 0) by (nonlinear_arith)
        requires
            den > 0,
            s > 0,
    ;
    let m = nearest_even(num, den * s);
    if e > 0 && v < pow2((prec + e - 1) as nat) {
        lemma_excess_bits(prec, num, den);
        lemma_pow2_adds((prec - 1) as nat, e);
        let h = pow2((prec - 1) as nat);
        let lead = pow2((prec + e - 1) as nat);
        assert(h * (den * s) == lead * den) by (nonlinear_arith)
            requires
                lead == h * s,
        ;
        lemma_nearest_even_at_least(num, den * s, h);
        assert(h * s <= m * s) by (nonlinear_arith)
            requires
                h <= m,
                s > 0,
        ;
    } else {
        lemma_multiple_of_spacing(prec, v, e);
        let w = choose|w: nat| v == #[trigger] (w * pow2(e));
        assert(w * (den * s) == v * den) by (nonlinear_arith)
            requires
                v == w * s,
        ;
        lemma_nearest_even_at_least(num, den * s, w);
        assert(w * s <= m * s) by (nonlinear_arith)
            requires
                w <= m,
                s > 0,
        ;
    }
}

/// What a quotient is rounded to is a value of the format.
pub proof fn lemma_round_representable(prec: nat, num: nat, den: nat)
    requires
        prec > 0,
        den > 0,
    ensures
        representable(prec, round_to_precision(prec, num, den)),
{
    let e = excess_bits(prec, num, den);
    let s = pow2(e);
    lemma_pow2_pos(e);
    assert(den * s > 0) by (nonlinear_arith)
        requires
            den > 0,
            s > 0,
    ;
    let m = nearest_even(num, den * s);
    let q = num / den;
    lemma_fundamental_div_mod(num as int, den as int);
    lemma_mod_bound(num as int, den as int);
    if q > 0 {
        lemma_bit_length_bounds(q);
    } else {
        lemma_pow2_pos(prec + e);
    }
    if bit_length(q) < prec + e {
        lemma_pow2_strictly_increases(bit_length(q), prec + e);
    }
    assert(q < pow2(prec + e));
    lemma_pow2_adds(prec, e);
    let h = pow2(prec);
    assert(num <= h * (den * s)) by (nonlinear_arith)
        requires
            q + 1 <= h * s,
            num == den * q + num % den,
            num % den < den,
            den > 0,
    ;
    lemma_nearest_even_at_most(num, den * s, h);
    lemma_representable(prec, m, e);
}

/// A larger number is rounded to no smaller whole.
proof fn lemma_nearest_even_monotone(a: nat, b: nat, den: nat)
    requires
        den > 0,
        a <= b,
    ensures
        nearest_even(a, den) <= nearest_even(b, den),
{
    lemma_fundamental_div_mod(a as int, den as int);
    lemma_fundamental_div_mod(b as int, den as int);
    lemma_mod_bound(a as int, den as int);
    lemma_mod_bound(b as int, den as int);
    lemma_div_is_ordered(a as int, b as int, den as int);
}

/// Rounding keeps the order of two multiples of the same fraction.
proof fn lemma_round_monotone_num(prec: nat, a: nat, b: nat, den: nat)
    requires
        prec > 0,
        den > 0,
        a <= b,
    ensures
        round_to_precision(prec, a, den) <= round_to_precision(prec, b, den),
{
    let ea = excess_bits(prec, a, den);
    let eb = excess_bits(prec, b, den);
    lemma_div_is_ordered(a as int, b as int, den as int);
    let qa = a / den;
    let qb = b / den;
    if qb > 0 {
        lemma_bit_length_bounds(qb);
        lemma_bit_length_at_most(qa, bit_length(qb));
    }
    assert(ea <= eb);
    lemma_pow2_pos(ea);
    lemma_pow2_pos(eb);
    if ea == eb {
        let s = pow2(ea);
        assert(den * s > 0) by (nonlinear_arith)
            requires
                den > 0,
                s > 0,
        ;
        lemma_nearest_even_monotone(a, b, den * s);
        lemma_mul_inequality(
            nearest_even(a, den * s) as int,
            nearest_even(b, den * s) as int,
            s as int,
        );
    } else {
        let top = (prec + eb - 1) as nat;
        let v = pow2(top);
        lemma_excess_bits(prec, b, den);
        lemma_fundamental_div_mod(a as int, den as int);
        lemma_mod_bound(a as int, den as int);
        if qa > 0 {
            lemma_bit_length_bounds(qa);
            if bit_length(qa) < top {
                lemma_pow2_strictly_increases(bit_length(qa), top);
            }
        } else {
            lemma_pow2_pos(top);
        }
        assert(qa < v);
        assert(a <= v * den) by (nonlinear_arith)
            requires
                a == den * qa + a % den,
                a % den < den,
                qa < v,
                den > 0,
        ;
        assert(1 * pow2(top) == v);
        lemma2_to64();
        if prec > 1 {
            lemma_pow2_strictly_increases(1, prec);
        }
        lemma_representable(prec, 1, top);
        lemma_round_at_most(prec, a, den, v);
        lemma_round_at_least(prec, b, den, v);
    }
}

/// Rounding keeps the order of quotients.
pub proof fn lemma_round_monotone(prec: nat, num_a: nat, den_a: nat, num_b: nat, den_b: nat)
    requires
        prec > 0,
        den_a > 0,
        den_b > 0,
        num_a * den_b <= num_b * den_a,
    ensures
        round_to_precision(prec, num_a, den_a) <= round_to_precision(prec, num_b, den_b),
{
    lemma_round_common_factor(prec, num_a, den_a, den_b);
    lemma_round_common_factor(prec, num_b, den_b, den_a);
    lemma_mul_is_commutative(den_a as int, den_b as int);
    assert(den_a * den_b > 0) by (nonlinear_arith)
        requires
            den_a > 0,
            den_b > 0,
    ;
    lemma_round_monotone_num(prec, num_a * den_b, num_b * den_a, den_a * den_b);
}

/// Rounding a number below `2^n` is off by at most half of the last of its `prec`
/// places.
pub proof fn lemma_round_error(prec: nat, num: nat, n: nat)
    requires
        0 < prec <= n,
        num <= pow2(n),
    ensures
        round_to_precision(prec, num, 1) <= num + pow2((n - prec) as nat),
        num <= round_to_precision(prec, num, 1) + pow2((n - prec) as nat),
{
    lemma2_to64();
    let e = excess_bits(prec, num, 1);
    let s = pow2(e);
    lemma_pow2_pos(e);
    assert(num / 1 == num);
    lemma_pow2_pos((n - prec) as nat);
    if num == pow2(n) {
        assert(1 * pow2(n) == pow2(n));
        lemma_pow2_pos(prec);
        lemma_representable(prec, 1, n);
        lemma_round_exact(prec, num, 1);
    } else {
        lemma_bit_length_at_most(num, n);
        assert(e <= n - prec);
        if e < n - prec {
            lemma_pow2_strictly_increases(e, (n - prec) as nat);
        }
        lemma_mul_basics(s as int);
        lemma_nearest_even_bounds(num, s);
        let m = nearest_even(num, s);
        assert(2 * m * s == 2 * (m * s) && (2 * m + 1) * s == 2 * (m * s) + s) by (nonlinear_arith);
    }
}

/// Rounding a quotient of at most `2^n` is off by no more than the last of its
/// `prec` places.
pub proof fn lemma_round_close(prec: nat, num: nat, den: nat, n: nat)
    requires
        0 < prec <= n,
        den > 0,
        num <= pow2(n) * den,
    ensures
        round_to_precision(prec, num, den) * den <= num + pow2((n - prec) as nat) * den,
        num <= round_to_precision(prec, num, den) * den + pow2((n - prec) as nat) * den,
{
    let e = excess_bits(prec, num, den);
    let s = pow2(e);
    let h = pow2((n - prec) as nat);
    lemma_pow2_pos(e);
    lemma_pow2_pos((n - prec) as nat);
    let r = round_to_precision(prec, num, den);
    if num == pow2(n) * den {
        assert(1 * pow2(n) == pow2(n));
        lemma2_to64();
        if prec > 1 {
            lemma_pow2_strictly_increases(1, prec);
        }
        lemma_representable(prec, 1, n);
        lemma_round_exact(prec, pow2(n), den);
        assert(h * den >= 0) by (nonlinear_arith)
            requires
                h >= 0,
                den >= 0,
        ;
    } else {
        let q = num / den;
        lemma_fundamental_div_mod(num as int, den as int);
        lemma_mod_bound(num as int, den as int);
        assert(q < pow2(n)) by (nonlinear_arith)
            requires
                num == den * q + num % den,
                num % den >= 0,
                num < pow2(n) * den,
                den > 0,
        ;
        lemma_bit_length_at_most(q, n);
        if e < n - prec {
            lemma_pow2_strictly_increases(e, (n - prec) as nat);
        }
        assert(s <= h);
        assert(den * s > 0) by (nonlinear_arith)
            requires
                den > 0,
                s > 0,
        ;
        lemma_nearest_even_bounds(num, den * s);
        let m = nearest_even(num, den * s);
        let x = den * s;
        assert(m * x == r * den) by (nonlinear_arith)
            requires
                r == m * s,
                x == den * s,
        ;
        assert(2 * m * x == 2 * (m * x) && (2 * m + 1) * x == 2 * (m * x) + x) by (nonlinear_arith);
        assert(x <= h * den) by (nonlinear_arith)
            requires
                x == den * s,
                s <= h,
                den > 0,
        ;
    }
}

/// Rounding is off by no more than one part in `2^prec`, and by no more than a unit
/// where the quotient has fewer places; a whole number of fewer places is not
/// changed.
pub proof fn lemma_round_relative(prec: nat, num: nat, den: nat)
    requires
        prec > 0,
        den > 0,
    ensures
        ({
            let p = pow2(prec);
            let r = round_to_precision(prec, num, den) * den;
            let slack: nat = if den == 1 {
                0
            } else {
                p * den
            };
            &&& r * p <= num * p + num + slack
            &&& num * p <= r * p + num + slack
        }),
{
    let e = excess_bits(prec, num, den);
    let s = pow2(e);
    let p = pow2(prec);
    let m = nearest_even(num, den * s);
    let r = m * s * den;
    let x = den * s;
    lemma_pow2_pos(e);
    lemma_pow2_pos(prec);
    lemma2_to64();
    assert(x > 0) by (nonlinear_arith)
        requires
            x == den * s,
            den > 0,
            s > 0,
    ;
    lemma_nearest_even_bounds(num, x);
    assert(m * x == r) by (nonlinear_arith)
        requires
            r == m * s * den,
            x == den * s,
    ;
    assert(2 * m * x == 2 * (m * x) && (2 * m + 1) * x == 2 * (m * x) + x) by (nonlinear_arith);
    if e > 0 {
        lemma_excess_bits(prec, num, den);
        let lead = pow2((prec + e - 1) as nat);
        lemma_pow2_unfold(prec + e);
        lemma_pow2_adds(prec, e);
        assert(2 * lead == p * s);
        assert(x * p <= 2 * num) by (nonlinear_arith)
            requires
                x == den * s,
                2 * lead == p * s,
                lead * den <= num,
        {
            assert(x * p == den * (p * s));
            assert(den * (2 * lead) == 2 * (lead * den));
        }
        lemma_relative_gap(r, num, x, p, 2 * num);
    } else if den == 1 {
        lemma_nearest_even_whole(num, 1);
        assert(num * 1 == num && den * s == 1);
    } else {
        assert(x == den) by (nonlinear_arith)
            requires
                x == den * s,
                s == 1,
        ;
        lemma_mul_is_commutative(den as int, p as int);
        lemma_relative_gap(r, num, x, p, p * den);
    }
}

proof fn lemma_relative_gap(r: nat, num: nat, x: nat, p: nat, gap: nat)
    requires
        2 * num <= 2 * r + x,
        2 * r <= 2 * num + x,
        x * p <= gap,
    ensures
        2 * (r * p) <= 2 * (num * p) + gap,
        2 * (num * p) <= 2 * (r * p) + gap,
{
    assert(2 * (r * p) <= 2 * (num * p) + x * p && 2 * (num * p) <= 2 * (r * p) + x * p)
        by (nonlinear_arith)
        requires
            2 * num <= 2 * r + x,
            2 * r <= 2 * num + x,
    {
        assert((2 * r) * p <= (2 * num + x) * p && (2 * num) * p <= (2 * r + x) * p);
        assert((2 * num + x) * p == 2 * (num * p) + x * p);
        assert((2 * r + x) * p == 2 * (r * p) + x * p);
        assert((2 * r) * p == 2 * (r * p) && (2 * num) * p == 2 * (num * p));
    }
}

/// A value of the format is rounded to itself.
pub proof fn lemma_round_exact(prec: nat, v: nat, den: nat)
    requires
        prec > 0,
        den > 0,
        representable(prec, v),
    ensures
        round_to_precision(prec, v * den, den) == v,
{
    lemma_round_at_most(prec, v * den, den, v);
    lemma_round_at_least(prec, v * den, den, v);
}

/// A common factor does not change what a quotient is rounded to.
pub proof fn lemma_round_common_factor(prec: nat, num: nat, den: nat, c: nat)
    requires
        den > 0,
        c > 0,
    ensures
        round_to_precision(prec, num * c, den * c) == round_to_precision(prec, num, den),
{
    let e = excess_bits(prec, num, den);
    let s = pow2(e);
    lemma_pow2_pos(e);
    lemma_fundamental_div_mod(num as int, den as int);
    lemma_mod_bound(num as int, den as int);
    let q = num / den;
    let r = num % den;
    assert(num * c == q * (den * c) + r * c) by (nonlinear_arith)
        requires
            num == den * q + r,
    ;
    assert(0 <= r * c < den * c) by (nonlinear_arith)
        requires
            0 <= r < den,
            c > 0,
    ;
    lemma_fundamental_div_mod_converse((num * c) as int, (den * c) as int, q as int, (r * c) as int);
    assert((den * c) * s == (den * s) * c) by (nonlinear_arith);
    assert(den * s > 0) by (nonlinear_arith)
        requires
            den > 0,
            s > 0,
    ;
    lemma_nearest_even_common_factor(num, den * s, c);
}

/// `2^k` as a machine integer.
pub fn power_of_two(k: u32) -> (r: u128)
    requires
        k < 128,
    ensures
        r == pow2(k as nat),
        r > 0,
{
    let mut r: u128 = 1;
    let mut i: u32 = 0;
    proof {
        lemma2_to64();
        lemma2_to64_rest();
    }
    while i < k
        invariant
            i <= k < 128,
            r == pow2(i as nat),
        decreases k - i,
    {
        proof {
            lemma_pow2_unfold((i + 1) as nat);
            lemma_pow2_below_two_to_128((i + 1) as nat);
        }
        r = r * 2;
        i = i + 1;
    }
    proof {
        lemma_pow2_pos(k as nat);
    }
    r
}

proof fn lemma_pow2_below_two_to_128(k: nat)
    requires
        k < 128,
    ensures
        pow2(k) <= 0x8000_0000_0000_0000_0000_0000_0000_0000,
{
    lemma2_to64();
    lemma2_to64_rest();
    lemma_pow2_adds(63, 64);
    assert(pow2(127) == pow2(63) * pow2(64));
    assert(pow2(127) == 0x8000_0000_0000_0000_0000_0000_0000_0000);
    if k < 127 {
        lemma_pow2_strictly_increases(k, 127);
    }
}

/// Number of binary digits of `n`.
pub fn count_bits(n: u128) -> (r: u32)
    ensures
        r == bit_length(n as nat),
        r <= 128,
{
    let mut rest: u128 = n;
    let mut r: u32 = 0;
    proof {
        lemma2_to64();
        lemma2_to64_rest();
        lemma_pow2_adds(64, 64);
        assert(n < pow2(128));
        lemma_bit_length_at_most(n as nat, 128);
    }
    while rest > 0
        invariant
            r + bit_length(rest as nat) == bit_length(n as nat),
            bit_length(n as nat) <= 128,
        decreases rest,
    {
        rest = rest / 2;
        r = r + 1;
    }
    r
}

/// `n / 2^k` rounded to the nearest integer, ties to even.
pub fn shift_right_nearest(n: u128, k: u32) -> (r: u128)
    requires
        bit_length(n as nat) <= 126,
    ensures
        r == nearest_even(n as nat, pow2(k as nat)),
{
    proof {
        lemma_pow2_pos(k as nat);
        if n > 0 {
            lemma_bit_length_bounds(n as nat);
        } else {
            lemma_pow2_pos(126);
        }
        if bit_length(n as nat) < 126 {
            lemma_pow2_strictly_increases(bit_length(n as nat), 126);
        }
        assert(n < pow2(126));
    }
    if k >= 128 {
        proof {
            lemma_pow2_strictly_increases(127, k as nat);
            lemma_pow2_unfold(127);
            lemma_small_mod(n as nat, pow2(k as nat));
            lemma_basic_div(n as int, pow2(k as nat) as int);
        }
        return 0;
    }
    let d: u128 = power_of_two(k);
    let q: u128 = n / d;
    let r: u128 = n % d;
    let rest: u128 = d - r;
    proof {
        lemma_fundamental_div_mod(n as int, d as int);
        assert(q <= n) by (nonlinear_arith)
            requires
                n == d * q + r,
                d >= 1,
                r >= 0,
                q >= 0,
        ;
        lemma_pow2_unfold(127);
        lemma_pow2_below_two_to_128(127);
    }
    if r < rest || (r == rest && q % 2 == 0) {
        q
    } else {
        q + 1
    }
}

/// Exact value `n * 2^x` units (`x` may be negative) as a quotient of naturals.
pub open spec fn scaled_num(n: nat, x: int) -> nat {
    if x >= 0 {
        n * pow2(x as nat)
    } else {
        n
    }
}

pub open spec fn scaled_den(x: int) -> nat {
    if x >= 0 {
        1
    } else {
        pow2((-x) as nat)
    }
}

proof fn lemma_round_scaled(n: nat, x: int, prec: nat)
    requires
        n > 0,
        prec > 0,
    ensures
        ({
            let len = bit_length(n);
            let value = round_to_precision(prec, scaled_num(n, x), scaled_den(x));
            &&& x >= 0 && len <= prec ==> value == n * pow2(x as nat)
            &&& x >= 0 && len > prec ==> value == nearest_even(n, pow2((len - prec) as nat))
                * pow2((x + len - prec) as nat)
            &&& x < 0 && len + x <= prec ==> value == nearest_even(n, pow2((-x) as nat))
            &&& x < 0 && len + x > prec ==> value == nearest_even(n, pow2((len - prec) as nat))
                * pow2((x + len - prec) as nat)
        }),
{
    let len = bit_length(n);
    let num = scaled_num(n, x);
    let den = scaled_den(x);
    let e = excess_bits(prec, num, den);
    lemma2_to64();
    if x >= 0 {
        let k = x as nat;
        lemma_bit_length_scaled(n, k);
        assert(num / den == num);
        lemma_pow2_pos(k);
        lemma_pow2_pos(e);
        assert(den * pow2(e) == pow2(e));
        if len <= prec {
            assert(e <= k);
            lemma_pow2_adds((k - e) as nat, e);
            lemma_mul_is_associative(n as int, pow2((k - e) as nat) as int, pow2(e) as int);
            lemma_nearest_even_whole(n * pow2((k - e) as nat), pow2(e));
        } else {
            let t = (len - prec) as nat;
            assert(e == k + t);
            lemma_pow2_adds(t, k);
            lemma_pow2_pos(t);
            lemma_nearest_even_common_factor(n, pow2(t), pow2(k));
        }
    } else {
        let k = (-x) as nat;
        lemma_bit_length_shifted(n, k);
        lemma_pow2_pos(k);
        lemma_pow2_adds(k, e);
    }
}

/// Rounds `n * 2^x` units to `prec` significant bits; the result is `m * 2^e`
/// units.
pub fn round_scaled(n: u128, x: i32, prec: u32) -> (r: (u64, u32))
    requires
        bit_length(n as nat) <= 126,
        -4000 <= x <= 4000,
        0 < prec <= 53,
    ensures
        r.0 * pow2(r.1 as nat) == round_to_precision(
            prec as nat,
            scaled_num(n as nat, x as int),
            scaled_den(x as int),
        ),
        r.0 <= pow2(prec as nat),
        r.1 <= 4200,
{
    proof {
        lemma2_to64();
        lemma2_to64_rest();
        lemma_pow2_pos(prec as nat);
        lemma_pow2_strictly_increases(prec as nat, 54);
    }
    if n == 0 {
        proof {
            lemma_pow2_pos((-x) as nat);
            lemma_round_zero(prec as nat, scaled_den(x as int));
            if x >= 0 {
                lemma_mul_basics(pow2(x as nat) as int);
            }
            assert(scaled_num(0, x as int) == 0);
            lemma_mul_basics(pow2(0) as int);
        }
        return (0, 0);
    }
    let len: u32 = count_bits(n);
    proof {
        lemma_round_scaled(n as nat, x as int, prec as nat);
        lemma_bit_length_bounds(n as nat);
    }
    let neg: i32 = 0 - x;
    if x >= 0 && len <= prec {
        proof {
            if len < prec {
                lemma_pow2_strictly_increases(len as nat, prec as nat);
            }
        }
        (n as u64, x as u32)
    } else if x < 0 && (len <= prec || len - prec <= neg as u32) {
        let m: u128 = shift_right_nearest(n, neg as u32);
        proof {
            lemma_nearest_even_fits(n as nat, neg as nat, prec as nat);
            assert(m <= pow2(54));
            assert(m * pow2(0) == m);
        }
        (m as u64, 0)
    } else {
        let t: u32 = len - prec;
        let m: u128 = shift_right_nearest(n, t);
        proof {
            lemma_nearest_even_fits(n as nat, t as nat, prec as nat);
        }
        (m as u64, (x + t as i32) as u32)
    }
}

pub proof fn lemma_round_zero(prec: nat, den: nat)
    requires
        den > 0,
    ensures
        round_to_precision(prec, 0, den) == 0,
{
    let e = excess_bits(prec, 0, den);
    lemma_basic_div(0, den as int);
    assert(e == 0);
    lemma2_to64();
    lemma_mul_basics(den as int);
    lemma_small_mod(0, den);
}

/// Rounding away all but `prec` bits leaves at most `2^prec`.
proof fn lemma_nearest_even_fits(n: nat, t: nat, prec: nat)
    requires
        n > 0,
        bit_length(n) <= t + prec,
    ensures
        nearest_even(n, pow2(t)) <= pow2(prec),
{
    lemma_bit_length_bounds(n);
    if bit_length(n) < t + prec {
        lemma_pow2_strictly_increases(bit_length(n), t + prec);
    }
    lemma_pow2_adds(t, prec);
    lemma_pow2_pos(t);
    let d = pow2(t);
    let h = pow2(prec);
    lemma_fundamental_div_mod(n as int, d as int);
    lemma_mod_bound(n as int, d as int);
    assert(n / d < h) by (nonlinear_arith)
        requires
            n < d * h,
            n == d * (n / d) + n % d,
            0 <= n % d,
            d > 0,
    ;
}

/// Beyond two dropped bits, a quotient may be replaced by twice its integer
/// part, plus one where something was left over.
proof fn lemma_nearest_even_sticky(n: nat, d: nat, q: nat, r: nat, t: nat)
    requires
        d > 0,
        n == d * q + r,
        r < d,
        t >= 2,
    ensures
        nearest_even(2 * n, d * pow2(t)) == nearest_even(
            2 * q + if r > 0 {
                1nat
            } else {
                0nat
            },
            pow2(t),
        ),
{
    let sticky: nat = if r > 0 {
        1
    } else {
        0
    };
    let s: nat = 2 * q + sticky;
    let full = pow2(t);
    let half = pow2((t - 1) as nat);
    let quarter = pow2((t - 2) as nat);
    lemma_pow2_unfold(t);
    lemma_pow2_unfold((t - 1) as nat);
    lemma_pow2_pos((t - 2) as nat);
    let qt = s / full;
    let rt = s % full;
    lemma_fundamental_div_mod(s as int, full as int);
    lemma_mod_bound(s as int, full as int);
    assert(full == 4 * quarter && half == 2 * quarter);
    assert(s == 4 * (quarter * qt) + rt) by (nonlinear_arith)
        requires
            s == full * qt + rt,
            full == 4 * quarter,
    ;
    let even: nat = (rt - sticky) as nat;
    assert(rt >= sticky && even % 2 == 0);
    let rho: nat = d * even + 2 * r;
    assert(2 * n == qt * (d * full) + rho) by (nonlinear_arith)
        requires
            n == d * q + r,
            2 * q == full * qt + even,
            rho == d * even + 2 * r,
    ;
    assert(rho < d * full) by (nonlinear_arith)
        requires
            rho == d * even + 2 * r,
            r < d,
            even + 2 <= full,
    ;
    assert(d * full > 0) by (nonlinear_arith)
        requires
            d > 0,
            full > 0,
    ;
    lemma_fundamental_div_mod_converse((2 * n) as int, (d * full) as int, qt as int, rho as int);
    assert(d * full == 2 * (d * half)) by (nonlinear_arith)
        requires
            full == 2 * half,
    ;
    if sticky == 0 {
        assert((even < half) == (d * even < d * half) && (even == half) == (d * even == d * half))
            by (nonlinear_arith)
            requires
                d > 0,
        ;
    } else if rt < half {
        assert(even + 2 <= half);
        assert(rho < d * half) by (nonlinear_arith)
            requires
                rho == d * even + 2 * r,
                r < d,
                even + 2 <= half,
        ;
    } else {
        assert(even >= half);
        assert(rho > d * half) by (nonlinear_arith)
            requires
                rho == d * even + 2 * r,
                r > 0,
                d > 0,
                even >= half,
        ;
    }
}

/// Length of the integer part of `num * 2^y / den`, from bounds on `num / den`.
pub proof fn lemma_scaled_length(num: nat, den: nat, len: nat, y: int)
    requires
        den > 0,
        len > 0,
        pow2((len - 1) as nat) * den <= num < pow2(len) * den,
    ensures
        den * scaled_den(y) > 0,
        bit_length(scaled_num(num, y) / (den * scaled_den(y))) == if len + y > 0 {
            (len + y) as nat
        } else {
            0
        },
{
    let lo = pow2((len - 1) as nat);
    let hi = pow2(len);
    if y >= 0 {
        let s = pow2(y as nat);
        lemma_pow2_pos(y as nat);
        lemma_pow2_adds((len - 1) as nat, y as nat);
        lemma_pow2_adds(len, y as nat);
        let n = num * s;
        assert((lo * s) * den <= n < (hi * s) * den) by (nonlinear_arith)
            requires
                lo * den <= num < hi * den,
                n == num * s,
                s > 0,
        ;
        lemma_quotient_between(n, den, lo * s, hi * s);
        assert(den * 1 == den);
        lemma_bit_length_unique(n / den, (len - 1 + y) as nat);
    } else {
        let k = (-y) as nat;
        let s = pow2(k);
        lemma_pow2_pos(k);
        assert(den * s > 0) by (nonlinear_arith)
            requires
                den > 0,
                s > 0,
        ;
        if len > k {
            lemma_pow2_adds((len - 1 - k) as nat, k);
            lemma_pow2_adds((len - k) as nat, k);
            let lo2 = pow2((len - 1 - k) as nat);
            let hi2 = pow2((len - k) as nat);
            assert(lo2 * (den * s) <= num < hi2 * (den * s)) by (nonlinear_arith)
                requires
                    lo * den <= num < hi * den,
                    lo == lo2 * s,
                    hi == hi2 * s,
            ;
            lemma_quotient_between(num, den * s, lo2, hi2);
            lemma_bit_length_unique(num / (den * s), (len - 1 - k) as nat);
        } else {
            if len < k {
                lemma_pow2_strictly_increases(len, k);
            }
            assert(num < den * s) by (nonlinear_arith)
                requires
                    num < hi * den,
                    hi <= s,
                    den > 0,
            ;
            lemma_basic_div(num as int, (den * s) as int);
        }
    }
}

proof fn lemma_quotient_between(n: nat, d: nat, lo: nat, hi: nat)
    requires
        d > 0,
        lo * d <= n < hi * d,
    ensures
        lo <= n / d < hi,
{
    lemma_fundamental_div_mod(n as int, d as int);
    lemma_mod_bound(n as int, d as int);
    let q = n / d;
    assert(lo <= q < hi) by (nonlinear_arith)
        requires
            n == d * q + n % d,
            0 <= n % d < d,
            lo * d <= n < hi * d,
            d > 0,
    ;
}

/// Rounds `n / d * 2^x` units to `prec` significant bits; the result is
/// `m * 2^e` units.
pub fn round_quotient(n: u64, d: u64, x: i32, prec: u32) -> (r: (u64, u32))
    requires
        0 < d < 0x0020_0000_0000_0000,
        d <= 2 * n,
        n < 0x0020_0000_0000_0000,
        -3200 <= x <= 3200,
        0 < prec <= 53,
    ensures
        r.0 * pow2(r.1 as nat) == round_to_precision(
            prec as nat,
            scaled_num(n as nat, x as int),
            d as nat * scaled_den(x as int),
        ),
        r.0 <= pow2(prec as nat),
        r.1 <= 4200,
{
    let shift: u128 = 0x100_0000_0000_0000_0000;
    proof {
        lemma2_to64();
        lemma2_to64_rest();
        lemma_pow2_adds(64, 8);
        assert(shift == pow2(72));
        lemma_pow2_adds(72, 53);
        assert(n * shift < 0x0020_0000_0000_0000 * shift) by (nonlinear_arith)
            requires
                n < 0x0020_0000_0000_0000,
                shift > 0,
        ;
    }
    let wide: u128 = n as u128 * shift;
    let q: u128 = wide / d as u128;
    let rest: u128 = wide % d as u128;
    proof {
        lemma_fundamental_div_mod(wide as int, d as int);
        lemma_pow2_unfold(72);
        let h = pow2(71);
        assert(q >= h) by (nonlinear_arith)
            requires
                wide == n * (2 * h),
                wide == d * q + rest,
                0 <= rest < d,
                d <= 2 * n,
                h > 0,
        {
            assert(d * h <= (2 * n) * h) by (nonlinear_arith)
                requires
                    d <= 2 * n,
                    h > 0,
            ;
            if q < h {
                assert(d * q + d <= d * h) by (nonlinear_arith)
                    requires
                        q + 1 <= h,
                        d > 0,
                ;
            }
        }
        assert(q <= wide) by (nonlinear_arith)
            requires
                wide == d * q + rest,
                d >= 1,
                rest >= 0,
                q >= 0,
        ;
        lemma_pow2_unfold(126);
    }
    let s: u128 = 2 * q + if rest > 0 {
        1
    } else {
        0
    };
    let ghost y: int = x - 73;
    let ghost len = bit_length(s as nat);
    proof {
        lemma_bit_length_at_most(s as nat, 126);
        lemma_bit_length_bounds(s as nat);
        if len < 72 {
            lemma_pow2_strictly_increases(len, 72);
        }
        assert(len > 72);
    }
    let r = round_scaled(s, x - 73, prec);
    proof {
        let num: nat = (2 * wide) as nat;
        let den: nat = d as nat;
        let lo = pow2((len - 1) as nat);
        let hi = pow2(len);
        lemma_pow2_unfold((len - 1) as nat);
        lemma_pow2_unfold(len);
        let lo_half = pow2((len - 2) as nat);
        assert(lo <= 2 * q && 2 * q + 2 <= hi);
        assert(lo * den <= num < hi * den) by (nonlinear_arith)
            requires
                lo <= 2 * q,
                2 * q + 2 <= hi,
                num == 2 * wide,
                wide == den * q + rest,
                0 <= rest < den,
        ;
        lemma_scaled_length(num, den, len, y);
        lemma_quotient_form(n as nat, den, x as int, num);
        lemma_round_scaled(s as nat, y, prec as nat);
        let big = scaled_num(num, y);
        let small = den * scaled_den(y);
        let e = excess_bits(prec as nat, big, small);
        lemma_pow2_pos(e);
        if y >= 0 {
            let t = (len - prec) as nat;
            assert(e == y + t);
            lemma_nearest_even_sticky(wide as nat, den, q as nat, rest as nat, t);
            lemma_pow2_adds(t, y as nat);
            lemma_pow2_pos(t);
            lemma_pow2_pos(y as nat);
            assert(den * pow2(t) > 0) by (nonlinear_arith)
                requires
                    den > 0,
                    pow2(t) > 0,
            ;
            lemma_nearest_even_common_factor(num, den * pow2(t), pow2(y as nat));
            lemma_mul_is_associative(den as int, pow2(t) as int, pow2(y as nat) as int);
            lemma_mul_basics(den as int);
            assert(small == den);
            assert(nearest_even(big, small * pow2(e)) == nearest_even(s as nat, pow2(t)));
            assert(round_to_precision(prec as nat, big, small) == nearest_even(s as nat, pow2(t))
                * pow2(e));
        } else {
            let k = (-y) as nat;
            let t = k + e;
            lemma_pow2_adds(k, e);
            lemma_mul_is_associative(den as int, pow2(k) as int, pow2(e) as int);
            lemma_nearest_even_sticky(wide as nat, den, q as nat, rest as nat, t);
            assert(nearest_even(big, small * pow2(e)) == nearest_even(s as nat, pow2(t)));
            assert(round_to_precision(prec as nat, big, small) == nearest_even(s as nat, pow2(t))
                * pow2(e));
            if len + y <= prec {
                assert(e == 0);
                lemma_mul_basics(nearest_even(s as nat, pow2(t)) as int);
            }
        }
        assert(r.0 * pow2(r.1 as nat) == round_to_precision(prec as nat, big, small));
    }
    r
}

/// Scaling a quotient up by `2^73` and down again changes nothing.
proof fn lemma_quotient_form(n: nat, d: nat, x: int, num: nat)
    requires
        d > 0,
        num == 2 * (n * pow2(72)),
    ensures
        forall|prec: nat|
            #[trigger] round_to_precision(prec, scaled_num(n, x), d * scaled_den(x))
                == round_to_precision(
                prec,
                scaled_num(num, x - 73),
                d * scaled_den(x - 73),
            ),
{
    lemma_pow2_unfold(73);
    lemma_pow2_pos(73);
    assert(num == n * pow2(73)) by (nonlinear_arith)
        requires
            num == 2 * (n * pow2(72)),
            pow2(73) == 2 * pow2(72),
    ;
    assert forall|prec: nat|
        #[trigger] round_to_precision(prec, scaled_num(n, x), d * scaled_den(x))
            == round_to_precision(prec, scaled_num(num, x - 73), d * scaled_den(x - 73)) by {
        if x >= 73 {
            let y = (x - 73) as nat;
            lemma_pow2_adds(73, y);
            lemma_mul_is_associative(n as int, pow2(73) as int, pow2(y) as int);
        } else if x >= 0 {
            let k = (73 - x) as nat;
            lemma_pow2_adds(x as nat, k);
            lemma_pow2_pos(k);
            lemma_mul_is_associative(n as int, pow2(x as nat) as int, pow2(k) as int);
            assert(d * 1 == d);
            lemma_round_common_factor(prec, scaled_num(n, x), d, pow2(k));
        } else {
            let k = (-x) as nat;
            lemma_pow2_adds(k, 73);
            lemma_pow2_pos(k);
            lemma_mul_is_associative(d as int, pow2(k) as int, pow2(73) as int);
            assert(d * pow2(k) > 0) by (nonlinear_arith)
                requires
                    d > 0,
                    pow2(k) > 0,
            ;
            lemma_round_common_factor(prec, n, d * pow2(k), pow2(73));
        }
    }
}

} // verus!
