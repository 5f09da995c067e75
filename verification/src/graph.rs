//! Beliefs, patterns and the typed, weighted edges between them.
use vstd::prelude::*;
use vstd::arithmetic::power2::*;

use crate::binary64::{
    complement, distance, greatest, lemma_one_units, lemma_pattern_order,
    lemma_pattern_representable, lemma_pattern_weak_order, one, pattern_units, plus, quotient,
    times, Binary64, INFINITY_BITS, ONE_BITS, SIGN_BIT, SUMMAND_LIMIT,
};
use crate::ids::{fresh_id, is_random_id};
use crate::inference::{lemma_settled_pattern, lemma_units_order, settled_units};
use crate::rounding::{
    lemma_representable, lemma_round_at_least, lemma_round_at_most, lemma_round_close,
    lemma_round_exact, lemma_round_representable, lemma_round_zero, representable, round_to_precision,
};
use crate::text::{copy_optional, same_text};
use crate::time::{now, Timestamp};

verus! {

/// Why a value of the graph was refused.
#[derive(Debug)]
pub enum GraphError {
    /// A probability outside the range from zero to one.
    ProbabilityOutOfRange(Binary64),
    /// A pseudo-count that is negative, not finite or too large.
    CountOutOfRange(Binary64),
    /// A text that names no edge type.
    UnknownEdgeType(String),
    /// A text that names no memory type.
    UnknownMemoryType(String),
}

/// A probability: a number from zero to one.
#[derive(Clone, Copy, Debug, PartialEq, Eq, Structural)]
pub struct Probability {
    number: Binary64,
}

/// The numbers that are probabilities.
pub open spec fn is_probability(v: Binary64) -> bool {
    !v.is_nan() && 0 <= v.value() <= one()
}

impl Probability {
    #[verifier::type_invariant]
    spec fn in_range(self) -> bool {
        self.number.in_unit_range()
    }

    /// The probability in units of the number format.
    pub closed spec fn units(self) -> nat {
        self.number.units()
    }

    /// A whole number by which probabilities can be ordered.
    pub closed spec fn key(self) -> u64 {
        self.number.bits
    }

    /// Accepts a number from zero to one. Negative zero is held as zero.
    pub fn new(v: Binary64) -> (r: Result<Probability, GraphError>)
        ensures
            r is Ok <==> is_probability(v),
            r is Ok ==> r->Ok_0.units() == v.value(),
            r is Err ==> r->Err_0 == GraphError::ProbabilityOutOfRange(v),
    {
        proof {
            lemma_one_units();
            lemma_unit_range(v);
        }
        if v.bits <= ONE_BITS {
            Ok(Probability { number: v })
        } else if v.bits == SIGN_BIT {
            Ok(Probability { number: Binary64 { bits: 0 } })
        } else {
            Err(GraphError::ProbabilityOutOfRange(v))
        }
    }

    /// The number.
    pub fn value(self) -> (r: Binary64)
        ensures
            r.in_unit_range(),
            r.bits == self.key(),
            r.units() == self.units(),
            r.value() == self.units(),
            self.units() <= one(),
    {
        proof {
            use_type_invariant(self);
            lemma_one_units();
            lemma_pattern_weak_order(self.number.bits, ONE_BITS);
        }
        self.number
    }

    /// A probability from a number of that range.
    pub(crate) fn from_unit_range(number: Binary64) -> (r: Probability)
        requires
            number.in_unit_range(),
        ensures
            r.units() == number.units(),
            r.units() <= one(),
    {
        proof {
            lemma_one_units();
            lemma_pattern_weak_order(number.bits, ONE_BITS);
        }
        Probability { number }
    }

    /// The probability times a factor, brought back into the range. Where the product
    /// is no number, the probability stays as it is: for a factor that is none, and
    /// for zero times an infinite one.
    pub fn attenuate(self, factor: Binary64) -> (r: Probability)
        ensures
            r.units() == attenuated(self.units(), factor),
            r.units() <= one(),
            0 <= factor.value() <= one() ==> r.units() <= self.units(),
            factor.value() == one() ==> r.units() == self.units(),
    {
        proof {
            use_type_invariant(self);
            lemma_one_units();
            lemma_unit_range(factor);
            lemma_pattern_weak_order(self.number.bits, ONE_BITS);
            lemma_units_order(self.number, Binary64 { bits: 0 });
        }
        let r = if factor.not_a_number() || (self.number.bits == 0 && !factor.finite()) {
            self.number
        } else if factor.bits >= SIGN_BIT {
            Binary64 { bits: 0 }
        } else if factor.bits >= INFINITY_BITS {
            Binary64 { bits: ONE_BITS }
        } else {
            let p = self.number.product(factor);
            proof {
                if p.bits > ONE_BITS {
                    lemma_pattern_order(ONE_BITS, p.bits);
                } else {
                    lemma_pattern_weak_order(p.bits, ONE_BITS);
                }
                if factor.bits <= ONE_BITS {
                    crate::binary64::lemma_times_at_most(
                        factor.units(),
                        self.number.units(),
                        factor.bits,
                        self.number.bits,
                    );
                    vstd::arithmetic::mul::lemma_mul_is_commutative(
                        factor.units() as int,
                        self.number.units() as int,
                    );
                } else {
                    lemma_pattern_order(ONE_BITS, factor.bits);
                }
                if factor.value() == one() {
                    lemma_pattern_representable(self.number.bits);
                    lemma_round_exact(53, self.number.units(), one());
                }
            }
            if p.bits > ONE_BITS {
                Binary64 { bits: ONE_BITS }
            } else {
                p
            }
        };
        Probability { number: r }
    }
}

/// Probabilities are ordered as their keys.
pub proof fn law_keys_order_probabilities(a: Probability, b: Probability)
    ensures
        a.key() < b.key() <==> a.units() < b.units(),
        a.key() == b.key() <==> a.units() == b.units(),
{
    if a.key() < b.key() {
        lemma_pattern_order(a.number.bits, b.number.bits);
    }
    if b.key() < a.key() {
        lemma_pattern_order(b.number.bits, a.number.bits);
    }
}

/// A probability times a factor, clamped to the range from zero to one; the
/// probability itself where the product is no number.
pub open spec fn attenuated(p: nat, factor: Binary64) -> nat {
    if factor.is_nan() || (p == 0 && !factor.is_finite()) {
        p
    } else if factor.is_negative() {
        0
    } else if !factor.is_finite() {
        one()
    } else {
        let product = times(p, factor.units());
        if product <= one() {
            product
        } else {
            one()
        }
    }
}

/// The bit patterns of probabilities are those up to one, and negative zero.
proof fn lemma_unit_range(v: Binary64)
    ensures
        is_probability(v) <==> v.bits <= ONE_BITS || v.bits == SIGN_BIT,
        v.bits <= ONE_BITS ==> v.value() == v.units(),
        v.bits == SIGN_BIT ==> v.value() == 0,
        v.is_negative() ==> v.value() <= 0,
        v.bits == SIGN_BIT <==> v.is_negative() && v.value() == 0,
{
    lemma_one_units();
    let p = v.pattern();
    if p > 0 {
        lemma_pattern_order(0, p);
    }
    if p > ONE_BITS {
        lemma_pattern_order(ONE_BITS, p);
    } else {
        lemma_pattern_weak_order(p, ONE_BITS);
    }
}

/// What a belief is for, which decides how it ages and where it is found.
#[derive(Clone, Copy, Debug, PartialEq, Eq, Structural)]
pub enum MemoryType {
    /// Declarative knowledge; it decays over time unless reinforced.
    Fact,
    /// A lesson learned at work; it does not decay.
    Experiential,
    /// Scratch memory of one task; retrieval does not return it.
    Working,
}

impl Default for MemoryType {
    fn default() -> (r: MemoryType)
        ensures
            r == MemoryType::Fact,
    {
        MemoryType::Fact
    }
}

impl MemoryType {
    /// The name of the memory type.
    pub open spec fn name(self) -> Seq<char> {
        match self {
            MemoryType::Fact => "fact"@,
            MemoryType::Experiential => "experiential"@,
            MemoryType::Working => "working"@,
        }
    }

    /// The name of the memory type.
    pub fn as_str(self) -> (r: &'static str)
        ensures
            r@ == self.name(),
    {
        match self {
            MemoryType::Fact => "fact",
            MemoryType::Experiential => "experiential",
            MemoryType::Working => "working",
        }
    }

    /// The memory type of that name.
    pub fn parse(s: &str) -> (r: Result<MemoryType, GraphError>)
        ensures
            match r {
                Ok(t) => s@ == t.name(),
                Err(e) => e is UnknownMemoryType && e->UnknownMemoryType_0@ == s@ && forall|
                    t: MemoryType,
                |
                    s@ != #[trigger] t.name(),
            },
    {
        if same_text(s, "fact") {
            Ok(MemoryType::Fact)
        } else if same_text(s, "experiential") {
            Ok(MemoryType::Experiential)
        } else if same_text(s, "working") {
            Ok(MemoryType::Working)
        } else {
            Err(GraphError::UnknownMemoryType(s.to_owned()))
        }
    }
}

/// What an edge says about its target.
#[derive(Clone, Copy, Debug, PartialEq, Eq, Structural)]
pub enum EdgeType {
    Supports,
    Defeats,
    Causes,
    Contradicts,
}

impl EdgeType {
    /// The label of the edge type.
    pub open spec fn name(self) -> Seq<char> {
        match self {
            EdgeType::Supports => "SUPPORTS"@,
            EdgeType::Defeats => "DEFEATS"@,
            EdgeType::Causes => "CAUSES"@,
            EdgeType::Contradicts => "CONTRADICTS"@,
        }
    }

    /// The label of the edge type.
    pub fn as_str(self) -> (r: &'static str)
        ensures
            r@ == self.name(),
    {
        match self {
            EdgeType::Supports => "SUPPORTS",
            EdgeType::Defeats => "DEFEATS",
            EdgeType::Causes => "CAUSES",
            EdgeType::Contradicts => "CONTRADICTS",
        }
    }

    /// The edge type with that label.
    pub fn parse(s: &str) -> (r: Result<EdgeType, GraphError>)
        ensures
            match r {
                Ok(t) => s@ == t.name(),
                Err(e) => e is UnknownEdgeType && e->UnknownEdgeType_0@ == s@ && forall|
                    t: EdgeType,
                |
                    s@ != #[trigger] t.name(),
            },
    {
        if same_text(s, "SUPPORTS") {
            Ok(EdgeType::Supports)
        } else if same_text(s, "DEFEATS") {
            Ok(EdgeType::Defeats)
        } else if same_text(s, "CAUSES") {
            Ok(EdgeType::Causes)
        } else if same_text(s, "CONTRADICTS") {
            Ok(EdgeType::Contradicts)
        } else {
            Err(GraphError::UnknownEdgeType(s.to_owned()))
        }
    }
}

impl std::str::FromStr for EdgeType {
    type Err = GraphError;

    fn from_str(s: &str) -> (r: Result<EdgeType, GraphError>)
        ensures
            match r {
                Ok(t) => s@ == t.name(),
                Err(e) => e is UnknownEdgeType && e->UnknownEdgeType_0@ == s@ && forall|
                    t: EdgeType,
                |
                    s@ != #[trigger] t.name(),
            },
    {
        EdgeType::parse(s)
    }
}

impl std::str::FromStr for MemoryType {
    type Err = GraphError;

    fn from_str(s: &str) -> (r: Result<MemoryType, GraphError>)
        ensures
            match r {
                Ok(t) => s@ == t.name(),
                Err(e) => e is UnknownMemoryType && e->UnknownMemoryType_0@ == s@ && forall|
                    t: MemoryType,
                |
                    s@ != #[trigger] t.name(),
            },
    {
        MemoryType::parse(s)
    }
}

/// No two edge types share a label, so a label is read back as the edge type
/// it was written for.
pub proof fn law_edge_type_names_differ(a: EdgeType, b: EdgeType)
    ensures
        a.name() == b.name() ==> a == b,
{
    reveal_strlit("SUPPORTS");
    reveal_strlit("DEFEATS");
    reveal_strlit("CAUSES");
    reveal_strlit("CONTRADICTS");
    assert("SUPPORTS"@[0] == 'S' && "DEFEATS"@[0] == 'D' && "CAUSES"@[1] == 'A'
        && "CONTRADICTS"@[1] == 'O');
    assert("CAUSES"@[0] == 'C' && "CONTRADICTS"@[0] == 'C');
}

/// Grounding a belief in a document is no edge between beliefs: no edge type has
/// the label `GROUNDS`, so that evidence takes no part in inference.
pub proof fn law_grounding_is_no_edge_type(t: EdgeType)
    ensures
        t.name() != "GROUNDS"@,
{
    reveal_strlit("SUPPORTS");
    reveal_strlit("DEFEATS");
    reveal_strlit("CAUSES");
    reveal_strlit("CONTRADICTS");
    reveal_strlit("GROUNDS");
    assert("GROUNDS"@[0] == 'G' && "SUPPORTS"@[0] == 'S' && "DEFEATS"@[0] == 'D' && "CAUSES"@[0]
        == 'C' && "CONTRADICTS"@[0] == 'C');
}

/// No two memory types share a name, so a name is read back as the memory type
/// it was written for.
pub proof fn law_memory_type_names_differ(a: MemoryType, b: MemoryType)
    ensures
        a.name() == b.name() ==> a == b,
{
    reveal_strlit("fact");
    reveal_strlit("experiential");
    reveal_strlit("working");
    assert("fact"@[0] == 'f' && "experiential"@[0] == 'e' && "working"@[0] == 'w');
}

/// Bit pattern of two: the weight of a prior that nothing is known of.
pub const LEAST_STRENGTH: u64 = 0x4000_0000_0000_0000;

/// Bit pattern of 198: what full confidence adds to the weight of a prior.
pub const STRENGTH_RANGE: u64 = 0x4068_C000_0000_0000;

/// Bit pattern of 200: the weight of a prior of full confidence.
pub const GREATEST_STRENGTH: u64 = 0x4069_0000_0000_0000;

/// Bit pattern of one half.
pub const HALF_BITS: u64 = 0x3FE0_0000_0000_0000;

/// Units of a whole number's bit pattern.
proof fn lemma_whole_pattern(bits: u64, n: nat, j: nat)
    requires
        bits >= 0x0010_0000_0000_0000,
        0x0010_0000_0000_0000 + bits as nat % 0x0010_0000_0000_0000 == n * pow2(j),
        bits as nat / 0x0010_0000_0000_0000 + j == 1075,
    ensures
        pattern_units(bits) == n * one(),
{
    let e = (bits as nat / 0x0010_0000_0000_0000 - 1) as nat;
    lemma_pow2_adds(j, e);
    vstd::arithmetic::mul::lemma_mul_is_associative(n as int, pow2(j) as int, pow2(e) as int);
}

pub proof fn lemma_strength_patterns()
    ensures
        pattern_units(LEAST_STRENGTH) == 2 * one(),
        pattern_units(STRENGTH_RANGE) == 198 * one(),
        pattern_units(GREATEST_STRENGTH) == 200 * one(),
        2 * pattern_units(HALF_BITS) == one(),
{
    lemma2_to64();
    lemma2_to64_rest();
    lemma_whole_pattern(LEAST_STRENGTH, 2, 51);
    lemma_whole_pattern(STRENGTH_RANGE, 198, 45);
    lemma_whole_pattern(GREATEST_STRENGTH, 200, 45);
    assert(0x3FE0_0000_0000_0000nat / 0x0010_0000_0000_0000 == 1022);
    lemma_pow2_adds(52, 1021);
    lemma_pow2_unfold(1074);
}

/// One half, in units.
pub proof fn lemma_half_units()
    ensures
        2 * pattern_units(HALF_BITS) == one(),
{
    lemma_strength_patterns();
}

/// The pseudo-count of a belief of the given confidence: two, plus 198 times
/// the confidence.
pub open spec fn strength_of(confidence: nat) -> nat {
    plus(2 * one(), times(confidence, 198 * one()))
}

/// The counts of a prior of the given mean and confidence.
pub open spec fn prior_counts(probability: nat, confidence: nat) -> (nat, nat) {
    let strength = strength_of(confidence);
    (times(probability, strength), times(complement(probability), strength))
}

/// A pseudo-count that can be summed: without sign, finite and not too large.
pub open spec fn is_count(v: Binary64) -> bool {
    v.bits < SUMMAND_LIMIT
}

/// Pseudo-counts for and against a belief, from its probability and confidence.
pub fn prior_from(probability: Probability, confidence: Probability) -> (r: (Binary64, Binary64))
    ensures
        is_count(r.0),
        is_count(r.1),
        (r.0.units(), r.1.units()) == prior_counts(probability.units(), confidence.units()),
{
    let p = probability.value();
    let c = confidence.value();
    proof {
        lemma_strength_patterns();
        lemma_one_units();
    }
    let added = c.product(Binary64 { bits: STRENGTH_RANGE });
    let strength = Binary64 { bits: LEAST_STRENGTH }.sum(added);
    proof {
        lemma_strength_bound(added.units(), added.bits, strength);
    }
    let against = Binary64 { bits: ONE_BITS }.distance_to(p);
    (p.product(strength), against.product(strength))
}

/// No prior weighs more than one of full confidence.
proof fn lemma_strength_bound(added: nat, added_bits: u64, strength: Binary64)
    requires
        added == pattern_units(added_bits),
        added_bits <= STRENGTH_RANGE,
        strength.units() == plus(2 * one(), added),
    ensures
        strength.bits <= GREATEST_STRENGTH,
{
    lemma_strength_patterns();
    lemma_pattern_weak_order(added_bits, STRENGTH_RANGE);
    lemma_pattern_representable(GREATEST_STRENGTH);
    lemma_round_at_most(53, 2 * one() + added, 1, 200 * one());
    if strength.bits > GREATEST_STRENGTH {
        lemma_pattern_order(GREATEST_STRENGTH, strength.bits);
    }
}

/// The mean of the counts: those in favour over all; one half where there are none.
pub open spec fn mean_of(alpha: nat, beta: nat) -> nat {
    let total = plus(alpha, beta);
    if total == 0 {
        pattern_units(HALF_BITS)
    } else {
        quotient(alpha, total)
    }
}

/// The mean of a pair of counts.
pub fn beta_mean(alpha: Binary64, beta: Binary64) -> (r: Probability)
    requires
        is_count(alpha),
        is_count(beta),
    ensures
        r.units() == mean_of(alpha.units(), beta.units()),
{
    let total = alpha.sum(beta);
    if total.bits == 0 {
        return Probability::from_unit_range(Binary64 { bits: HALF_BITS });
    }
    proof {
        lemma_pattern_order(0, total.bits);
        lemma_sum_at_least(alpha, beta, total);
    }
    Probability::from_unit_range(alpha.quotient_by(total))
}

proof fn lemma_sum_at_least(a: Binary64, b: Binary64, total: Binary64)
    requires
        total.units() == plus(a.units(), b.units()),
    ensures
        a.bits <= total.bits,
{
    lemma_pattern_representable(a.bits);
    lemma_round_at_least(53, a.units() + b.units(), 1, a.units());
    if total.bits < a.bits {
        lemma_pattern_order(total.bits, a.bits);
    }
}

/// The confidence that a pseudo-count stands for: where it lies between two and
/// two hundred.
pub open spec fn confidence_of(strength: nat) -> nat {
    if strength <= 2 * one() {
        0
    } else if strength >= 200 * one() {
        one()
    } else {
        quotient(distance(strength, 2 * one()), 198 * one())
    }
}

/// Probability and confidence of a pair of counts.
pub fn beta_to_pc(alpha: Binary64, beta: Binary64) -> (r: (Probability, Probability))
    requires
        is_count(alpha),
        is_count(beta),
    ensures
        r.0.units() == mean_of(alpha.units(), beta.units()),
        r.1.units() == confidence_of(plus(alpha.units(), beta.units())),
{
    let strength = alpha.sum(beta);
    proof {
        lemma_strength_patterns();
        lemma_one_units();
        if strength.bits <= LEAST_STRENGTH {
            lemma_pattern_weak_order(strength.bits, LEAST_STRENGTH);
        } else {
            lemma_pattern_order(LEAST_STRENGTH, strength.bits);
        }
        if strength.bits >= GREATEST_STRENGTH {
            lemma_pattern_weak_order(GREATEST_STRENGTH, strength.bits);
        } else {
            lemma_pattern_order(strength.bits, GREATEST_STRENGTH);
        }
    }
    let confidence = if strength.bits <= LEAST_STRENGTH {
        Binary64 { bits: 0 }
    } else if strength.bits >= GREATEST_STRENGTH {
        Binary64 { bits: ONE_BITS }
    } else {
        let above = strength.distance_to(Binary64 { bits: LEAST_STRENGTH });
        proof {
            lemma_pattern_representable(STRENGTH_RANGE);
            lemma_round_at_most(53, (strength.units() - 2 * one()) as nat, 1, 198 * one());
            if above.bits > STRENGTH_RANGE {
                lemma_pattern_order(STRENGTH_RANGE, above.bits);
            }
        }
        above.quotient_by(Binary64 { bits: STRENGTH_RANGE })
    };
    (beta_mean(alpha, beta), Probability::from_unit_range(confidence))
}

/// The last place of the counts of a prior: no sum or product of theirs is off by
/// more than this.
pub open spec fn last_place() -> nat {
    pow2(1029)
}

/// What rounding a product, a sum or a difference of counts can change.
pub proof fn lemma_count_rounding(num: nat, den: nat)
    requires
        den > 0,
        num <= 256 * one() * den,
    ensures
        round_to_precision(53, num, den) * den <= num + last_place() * den,
        num <= round_to_precision(53, num, den) * den + last_place() * den,
{
    lemma2_to64();
    lemma_pow2_adds(8, 1074);
    lemma_round_close(53, num, den, 1082);
}

/// Sizes that the proofs on priors compare.
proof fn lemma_prior_sizes()
    ensures
        one() == 0x2000_0000_0000 * last_place(),
        0 < 256 * last_place() < settled_units(),
        representable(53, 256 * last_place()),
{
    lemma2_to64();
    lemma2_to64_rest();
    lemma_pow2_adds(45, 1029);
    lemma_pow2_adds(8, 1029);
    lemma_pow2_pos(1029);
    lemma_settled_pattern();
    assert(0x3E11_2E0B_E826_D695nat / 0x0010_0000_0000_0000 == 993);
    let m: nat = 0x0010_0000_0000_0000 + 0x3E11_2E0B_E826_D695nat % 0x0010_0000_0000_0000;
    lemma_pow2_adds(45, 992);
    assert(m == 4835703278458517);
    assert(pow2(1037) < m * pow2(992)) by (nonlinear_arith)
        requires
            pow2(1037) == 0x2000_0000_0000 * pow2(992),
            m == 4835703278458517,
            pow2(992) > 0,
    ;
    assert(1 * pow2(1037) == pow2(1037));
    lemma_representable(53, 1, 1037);
}

/// A small distance stays small when it is rounded.
proof fn lemma_distance_settled(a: nat, b: nat)
    requires
        a <= b + 256 * last_place(),
        b <= a + 256 * last_place(),
    ensures
        distance(a, b) <= settled_units(),
{
    lemma_prior_sizes();
    let d = if a >= b {
        (a - b) as nat
    } else {
        (b - a) as nat
    };
    lemma_round_at_most(53, d, 1, 256 * last_place());
}

/// The weight of a prior: two, plus 198 times the confidence, but for rounding.
pub proof fn lemma_strength_close(c: nat)
    requires
        c <= one(),
    ensures
        2 * one() <= strength_of(c) <= 200 * one(),
        strength_of(c) <= 2 * one() + 198 * c + 2 * last_place(),
        2 * one() + 198 * c <= strength_of(c) + 2 * last_place(),
{
    lemma_strength_patterns();
    lemma_pow2_pos(1074);
    let u = one();
    let h = last_place();
    let t = times(c, 198 * u);
    assert(c * (198 * u) == 198 * c * u && 198 * c * u <= 256 * u * u && (198 * u) * u == u * (198
        * u) && c * (198 * u) <= (198 * u) * u) by (nonlinear_arith)
        requires
            c <= u,
            u > 0,
    ;
    lemma_count_rounding(c * (198 * u), u);
    assert(t <= 198 * c + h && 198 * c <= t + h) by (nonlinear_arith)
        requires
            t * u <= 198 * c * u + h * u,
            198 * c * u <= t * u + h * u,
            u > 0,
    ;
    lemma_pattern_representable(STRENGTH_RANGE);
    lemma_round_at_most(53, c * (198 * u), u, 198 * u);
    lemma_pattern_representable(LEAST_STRENGTH);
    lemma_pattern_representable(GREATEST_STRENGTH);
    lemma_round_at_least(53, 2 * u + t, 1, 2 * u);
    lemma_round_at_most(53, 2 * u + t, 1, 200 * u);
    lemma_count_rounding(2 * u + t, 1);
}

/// One minus a probability, but for rounding.
pub proof fn lemma_complement_close(p: nat)
    requires
        p <= one(),
    ensures
        complement(p) <= one(),
        complement(p) + p <= one() + last_place(),
        one() <= complement(p) + p + last_place(),
{
    lemma_one_units();
    lemma_pattern_representable(ONE_BITS);
    lemma_round_at_most(53, (one() - p) as nat, 1, one());
    lemma_count_rounding((one() - p) as nat, 1);
}

/// A product of a probability and the weight of a prior, but for rounding.
pub proof fn lemma_share_close(p: nat, s: nat)
    requires
        p <= one(),
        s <= 200 * one(),
    ensures
        times(p, s) * one() <= p * s + last_place() * one(),
        p * s <= times(p, s) * one() + last_place() * one(),
        times(p, s) <= 200 * one() + last_place(),
{
    let u = one();
    let h = last_place();
    lemma_pow2_pos(1074);
    assert(p * s <= 200 * u * u && 200 * u * u <= 256 * u * u) by (nonlinear_arith)
        requires
            p <= u,
            s <= 200 * u,
            u > 0,
    ;
    lemma_count_rounding(p * s, u);
    let t = times(p, s);
    assert(t <= 200 * u + h) by (nonlinear_arith)
        requires
            t * u <= p * s + h * u,
            p * s <= 200 * u * u,
            u > 0,
    ;
}

/// The counts of a prior sum to its weight, but for rounding.
proof fn lemma_total_close(p: nat, s: nat)
    requires
        p <= one(),
        2 * one() <= s <= 200 * one(),
    ensures
        ({
            let total = plus(times(p, s), times(complement(p), s));
            &&& total <= s + 203 * last_place()
            &&& s <= total + 203 * last_place()
            &&& times(p, s) <= total
            &&& one() < total
        }),
{
    let u = one();
    let h = last_place();
    let q = complement(p);
    let a = times(p, s);
    let b = times(q, s);
    lemma_prior_sizes();
    lemma_pow2_pos(1074);
    lemma_complement_close(p);
    lemma_share_close(p, s);
    lemma_share_close(q, s);
    assert(p * s + q * s <= u * s + 200 * h * u && u * s <= p * s + q * s + 200 * h * u)
        by (nonlinear_arith)
        requires
            q + p <= u + h,
            u <= q + p + h,
            s <= 200 * u,
            u > 0,
    {
        assert((p + q) * s == p * s + q * s);
        assert((q + p) * s <= (u + h) * s && u * s <= (q + p + h) * s);
        assert((u + h) * s == u * s + h * s && (q + p + h) * s == (q + p) * s + h * s);
        assert(h * s <= h * (200 * u));
        assert(h * (200 * u) == 200 * h * u);
    }
    assert(a + b <= s + 202 * h && s <= a + b + 202 * h) by (nonlinear_arith)
        requires
            a * u <= p * s + h * u,
            p * s <= a * u + h * u,
            b * u <= q * s + h * u,
            q * s <= b * u + h * u,
            p * s + q * s <= u * s + 200 * h * u,
            u * s <= p * s + q * s + 200 * h * u,
            u > 0,
    {
        assert((a + b) * u == a * u + b * u);
        assert((s + 202 * h) * u == u * s + 202 * (h * u));
        assert((a + b + 202 * h) * u == a * u + b * u + 202 * (h * u));
        assert(200 * h * u == 200 * (h * u));
        assert((a + b) * u <= (s + 202 * h) * u);
        assert(s * u <= (a + b + 202 * h) * u);
    }
    lemma_count_rounding(a + b, 1);
    lemma_pow2_pos(1029);
    lemma_round_representable(53, p * s, u);
    lemma_round_at_least(53, a + b, 1, a);
}

/// The mean of the counts of a prior is its probability, but for rounding.
proof fn lemma_mean_close(p: nat, s: nat)
    requires
        p <= one(),
        2 * one() <= s <= 200 * one(),
    ensures
        mean_of(times(p, s), times(complement(p), s)) <= p + 256 * last_place(),
        p <= mean_of(times(p, s), times(complement(p), s)) + 256 * last_place(),
{
    let u = one();
    let h = last_place();
    let a = times(p, s);
    let t = plus(a, times(complement(p), s));
    lemma_prior_sizes();
    lemma_pow2_pos(1074);
    lemma_share_close(p, s);
    lemma_total_close(p, s);
    let m = quotient(a, t);
    assert(a * u <= 256 * u * t) by (nonlinear_arith)
        requires
            a <= t,
            u > 0,
    ;
    lemma_count_rounding(a * u, t);
    assert(p * t <= p * s + 203 * h * u && p * s <= p * t + 203 * h * u) by (nonlinear_arith)
        requires
            t <= s + 203 * h,
            s <= t + 203 * h,
            p <= u,
    {
        assert(p * t <= p * (s + 203 * h) && p * s <= p * (t + 203 * h));
        assert(p * (s + 203 * h) == p * s + p * (203 * h));
        assert(p * (t + 203 * h) == p * t + p * (203 * h));
        assert(p * (203 * h) <= u * (203 * h));
        assert(u * (203 * h) == 203 * h * u);
    }
    assert(m <= p + 256 * h && p <= m + 256 * h) by (nonlinear_arith)
        requires
            m * t <= a * u + h * t,
            a * u <= m * t + h * t,
            a * u <= p * s + h * u,
            p * s <= a * u + h * u,
            p * t <= p * s + 203 * h * u,
            p * s <= p * t + 203 * h * u,
            u < t,
            h > 0,
    {
        assert(h * u <= h * t);
        assert(203 * h * u == 203 * (h * u));
        assert((p + 256 * h) * t == p * t + 256 * (h * t));
        assert((m + 256 * h) * t == m * t + 256 * (h * t));
        assert(m * t <= (p + 256 * h) * t);
        assert(p * t <= (m + 256 * h) * t);
    }
}

/// The confidence of the counts of a prior is its confidence, but for rounding.
proof fn lemma_confidence_close(t: nat, c: nat)
    requires
        c <= one(),
        t <= 2 * one() + 198 * c + 205 * last_place(),
        2 * one() + 198 * c <= t + 205 * last_place(),
    ensures
        confidence_of(t) <= c + 256 * last_place(),
        c <= confidence_of(t) + 256 * last_place(),
{
    let u = one();
    let h = last_place();
    lemma_prior_sizes();
    lemma_pow2_pos(1074);
    if 2 * u < t && t < 200 * u {
        let above = (t - 2 * u) as nat;
        let d = distance(t, 2 * u);
        lemma_strength_patterns();
        lemma_pattern_representable(STRENGTH_RANGE);
        lemma_round_at_most(53, above, 1, 198 * u);
        lemma_count_rounding(above, 1);
        let q = quotient(d, 198 * u);
        assert(d * u <= 256 * u * (198 * u)) by (nonlinear_arith)
            requires
                d <= 198 * u,
                u > 0,
        ;
        lemma_count_rounding(d * u, 198 * u);
        assert(198 * q <= d + 198 * h && d <= 198 * q + 198 * h) by (nonlinear_arith)
            requires
                q * (198 * u) <= d * u + h * (198 * u),
                d * u <= q * (198 * u) + h * (198 * u),
                u > 0,
        {
            assert(q * (198 * u) == (198 * q) * u && h * (198 * u) == (198 * h) * u);
            assert((d + 198 * h) * u == d * u + (198 * h) * u);
            assert((198 * q + 198 * h) * u == (198 * q) * u + (198 * h) * u);
        }
    }
}

/// A prior is read back from its counts: their mean is the probability and their
/// weight the confidence, each within the number nearest to `10^-9`.
pub proof fn law_prior_is_read_back(p: nat, c: nat)
    requires
        p <= one(),
        c <= one(),
    ensures
        ({
            let n = prior_counts(p, c);
            &&& distance(mean_of(n.0, n.1), p) <= settled_units()
            &&& distance(confidence_of(plus(n.0, n.1)), c) <= settled_units()
        }),
{
    let s = strength_of(c);
    let n = prior_counts(p, c);
    lemma_strength_close(c);
    lemma_total_close(p, s);
    lemma_mean_close(p, s);
    lemma_confidence_close(plus(n.0, n.1), c);
    lemma_distance_settled(mean_of(n.0, n.1), p);
    lemma_distance_settled(confidence_of(plus(n.0, n.1)), c);
}

/// The counts that give a belief another confidence: those of a prior of its
/// probability. What is read back from them is the belief's probability and the new
/// confidence.
pub fn counts_with_confidence(belief: &Belief, confidence: Probability) -> (r: (
    Binary64,
    Binary64,
))
    ensures
        is_count(r.0),
        is_count(r.1),
        (r.0.units(), r.1.units()) == prior_counts(
            belief.probability.units(),
            confidence.units(),
        ),
        distance(mean_of(r.0.units(), r.1.units()), belief.probability.units())
            <= settled_units(),
        distance(confidence_of(plus(r.0.units(), r.1.units())), confidence.units())
            <= settled_units(),
{
    let p = belief.probability.value();
    let c = confidence.value();
    proof {
        law_prior_is_read_back(p.units(), c.units());
    }
    prior_from(belief.probability, confidence)
}

/// A new belief agrees with the counts that it starts from.
pub proof fn law_new_belief_agrees_with_counts(
    b: Belief,
    probability: Binary64,
    confidence: Binary64,
)
    requires
        is_probability(probability),
        is_probability(confidence),
        b.starts_from(probability, confidence),
    ensures
        b.agrees_with_counts(),
{
    law_prior_is_read_back(b.probability.units(), b.confidence.units());
}

/// A number, with negative zero taken as zero.
pub open spec fn unsigned_zero(v: Binary64) -> Binary64 {
    if v.bits == 0x8000_0000_0000_0000 {
        Binary64 { bits: 0 }
    } else {
        v
    }
}

/// A number, with negative zero taken as zero.
pub fn without_zero_sign(v: Binary64) -> (r: Binary64)
    ensures
        r == unsigned_zero(v),
{
    if v.bits == SIGN_BIT {
        Binary64 { bits: 0 }
    } else {
        v
    }
}

/// Why a pair of stored numbers has no mean: the first that is negative or not finite,
/// or else the first of two whose sum is not finite.
pub open spec fn refused_pair(alpha: Binary64, beta: Binary64) -> Option<GraphError> {
    if unsigned_zero(alpha).bits >= INFINITY_BITS {
        Some(GraphError::CountOutOfRange(alpha))
    } else if unsigned_zero(beta).bits >= INFINITY_BITS {
        Some(GraphError::CountOutOfRange(beta))
    } else if plus(unsigned_zero(alpha).units(), unsigned_zero(beta).units()) > greatest() {
        Some(GraphError::CountOutOfRange(alpha))
    } else {
        None
    }
}

/// The mean of a pair of stored numbers.
pub fn stored_mean(alpha: Binary64, beta: Binary64) -> (r: Result<Probability, GraphError>)
    ensures
        match r {
            Ok(p) => refused_pair(alpha, beta) is None && p.units() == mean_of(
                unsigned_zero(alpha).units(),
                unsigned_zero(beta).units(),
            ),
            Err(e) => refused_pair(alpha, beta) == Some(e),
        },
{
    let a = without_zero_sign(alpha);
    let b = without_zero_sign(beta);
    if a.bits >= INFINITY_BITS {
        return Err(GraphError::CountOutOfRange(alpha));
    }
    if b.bits >= INFINITY_BITS {
        return Err(GraphError::CountOutOfRange(beta));
    }
    match a.checked_sum(b) {
        Some(total) => {
            if total.bits == 0 {
                return Ok(Probability::from_unit_range(Binary64 { bits: HALF_BITS }));
            }
            proof {
                lemma_pattern_order(0, total.bits);
                lemma_sum_at_least(a, b, total);
                lemma_pattern_weak_order(total.bits, 0x7FEF_FFFF_FFFF_FFFF);
            }
            Ok(Probability::from_unit_range(a.quotient_by(total)))
        },
        None => Err(GraphError::CountOutOfRange(alpha)),
    }
}

/// Something held to be true, to some degree.
#[derive(Clone, Debug)]
pub struct Belief {
    pub id: u128,
    pub content: String,
    pub probability: Probability,
    pub confidence: Probability,
    /// Pseudo-counts for and against the belief.
    pub alpha: Binary64,
    pub beta: Binary64,
    /// The counts it started from.
    pub alpha0: Binary64,
    pub beta0: Binary64,
    pub created_at: Timestamp,
    pub last_activated_at: Timestamp,
    pub memory_type: MemoryType,
    /// The project that the belief belongs to, if any.
    pub project: Option<String>,
}

impl Belief {
    /// The belief has the given probability and confidence, and the counts that
    /// follow from them.
    pub open spec fn starts_from(self, probability: Binary64, confidence: Binary64) -> bool {
        let counts = prior_counts(self.probability.units(), self.confidence.units());
        &&& self.probability.units() == probability.value()
        &&& self.confidence.units() == confidence.value()
        &&& (self.alpha0.units(), self.beta0.units()) == counts
        &&& self.alpha == self.alpha0
        &&& self.beta == self.beta0
        &&& is_count(self.alpha0)
        &&& is_count(self.beta0)
    }

    /// Probability and confidence are the mean and the weight of the counts, each
    /// within the number nearest to `10^-9`.
    pub open spec fn agrees_with_counts(self) -> bool {
        let alpha = self.alpha.units();
        let beta = self.beta.units();
        &&& distance(mean_of(alpha, beta), self.probability.units()) <= settled_units()
        &&& distance(confidence_of(plus(alpha, beta)), self.confidence.units()) <= settled_units()
    }

    /// A new belief without project.
    pub fn new(content: String, probability: Binary64, confidence: Binary64) -> (r: Result<
        Belief,
        GraphError,
    >)
        ensures
            match r {
                Ok(b) => {
                    &&& is_probability(probability)
                    &&& is_probability(confidence)
                    &&& is_random_id(b.id)
                    &&& b.content == content
                    &&& b.starts_from(probability, confidence)
                    &&& b.created_at == b.last_activated_at
                    &&& b.memory_type == MemoryType::Fact
                    &&& b.project is None
                },
                Err(e) => refused_belief(probability, confidence, e),
            },
    {
        let at = now();
        Belief::created(fresh_id(), at, content, probability, confidence)
    }

    /// A belief with the given identifier, created at the given time.
    pub fn created(
        id: u128,
        at: Timestamp,
        content: String,
        probability: Binary64,
        confidence: Binary64,
    ) -> (r: Result<Belief, GraphError>)
        ensures
            match r {
                Ok(b) => {
                    &&& is_probability(probability)
                    &&& is_probability(confidence)
                    &&& b.id == id
                    &&& b.content == content
                    &&& b.starts_from(probability, confidence)
                    &&& b.created_at == at
                    &&& b.last_activated_at == at
                    &&& b.memory_type == MemoryType::Fact
                    &&& b.project is None
                },
                Err(e) => refused_belief(probability, confidence, e),
            },
    {
        let p = match Probability::new(probability) {
            Ok(p) => p,
            Err(e) => return Err(e),
        };
        let c = match Probability::new(confidence) {
            Ok(c) => c,
            Err(e) => return Err(e),
        };
        let (alpha0, beta0) = prior_from(p, c);
        Ok(
            Belief {
                id,
                content,
                probability: p,
                confidence: c,
                alpha: alpha0,
                beta: beta0,
                alpha0,
                beta0,
                created_at: at,
                last_activated_at: at,
                memory_type: MemoryType::Fact,
                project: None,
            },
        )
    }

    /// A new belief of a project.
    pub fn new_in_project(
        content: String,
        probability: Binary64,
        confidence: Binary64,
        project: String,
    ) -> (r: Result<Belief, GraphError>)
        ensures
            match r {
                Ok(b) => {
                    &&& is_probability(probability)
                    &&& is_probability(confidence)
                    &&& is_random_id(b.id)
                    &&& b.content == content
                    &&& b.starts_from(probability, confidence)
                    &&& b.created_at == b.last_activated_at
                    &&& b.memory_type == MemoryType::Fact
                    &&& b.project == Some(project)
                },
                Err(e) => refused_belief(probability, confidence, e),
            },
    {
        match Belief::new(content, probability, confidence) {
            Ok(b) => {
                let mut tagged = b;
                tagged.project = Some(project);
                Ok(tagged)
            },
            Err(e) => Err(e),
        }
    }

    /// A copy of the belief.
    pub fn duplicate(&self) -> (r: Belief)
        ensures
            r == *self,
    {
        Belief {
            id: self.id,
            content: self.content.clone(),
            probability: self.probability,
            confidence: self.confidence,
            alpha: self.alpha,
            beta: self.beta,
            alpha0: self.alpha0,
            beta0: self.beta0,
            created_at: self.created_at,
            last_activated_at: self.last_activated_at,
            memory_type: self.memory_type,
            project: copy_optional(&self.project),
        }
    }

    /// The belief with another memory type.
    pub fn with_memory_type(self, memory_type: MemoryType) -> (r: Belief)
        ensures
            r == (Belief { memory_type, ..self }),
    {
        let mut b = self;
        b.memory_type = memory_type;
        b
    }

    /// A belief as it was stored: its probability and confidence follow from its
    /// counts.
    pub fn from_stored(
        id: u128,
        content: String,
        alpha: Binary64,
        beta: Binary64,
        alpha0: Binary64,
        beta0: Binary64,
        created_at: Timestamp,
        last_activated_at: Timestamp,
        memory_type: MemoryType,
        project: Option<String>,
    ) -> (r: Result<Belief, GraphError>)
        ensures
            match r {
                Ok(b) => {
                    &&& is_count(alpha) && is_count(beta) && is_count(alpha0) && is_count(beta0)
                    &&& b == (Belief {
                        id,
                        content,
                        probability: b.probability,
                        confidence: b.confidence,
                        alpha,
                        beta,
                        alpha0,
                        beta0,
                        created_at,
                        last_activated_at,
                        memory_type,
                        project,
                    })
                    &&& b.probability.units() == mean_of(alpha.units(), beta.units())
                    &&& b.confidence.units() == confidence_of(plus(alpha.units(), beta.units()))
                    &&& b.agrees_with_counts()
                },
                Err(e) => first_refused_count(seq![alpha, beta, alpha0, beta0]) == Some(
                    e,
                ),
            },
    {
        if alpha.bits >= SUMMAND_LIMIT {
            return Err(GraphError::CountOutOfRange(alpha));
        }
        if beta.bits >= SUMMAND_LIMIT {
            return Err(GraphError::CountOutOfRange(beta));
        }
        if alpha0.bits >= SUMMAND_LIMIT {
            return Err(GraphError::CountOutOfRange(alpha0));
        }
        if beta0.bits >= SUMMAND_LIMIT {
            return Err(GraphError::CountOutOfRange(beta0));
        }
        let (probability, confidence) = beta_to_pc(alpha, beta);
        proof {
            lemma_round_zero(53, 1);
        }
        Ok(
            Belief {
                id,
                content,
                probability,
                confidence,
                alpha,
                beta,
                alpha0,
                beta0,
                created_at,
                last_activated_at,
                memory_type,
                project,
            },
        )
    }
}

/// The error for the first number of four that is no count.
pub open spec fn first_refused_count(counts: Seq<Binary64>) -> Option<GraphError> {
    if !is_count(counts[0]) {
        Some(GraphError::CountOutOfRange(counts[0]))
    } else if !is_count(counts[1]) {
        Some(GraphError::CountOutOfRange(counts[1]))
    } else if !is_count(counts[2]) {
        Some(GraphError::CountOutOfRange(counts[2]))
    } else if !is_count(counts[3]) {
        Some(GraphError::CountOutOfRange(counts[3]))
    } else {
        None
    }
}

/// The error for a belief whose probability, or else whose confidence, is none.
pub open spec fn refused_belief(
    probability: Binary64,
    confidence: Binary64,
    e: GraphError,
) -> bool {
    if !is_probability(probability) {
        e == GraphError::ProbabilityOutOfRange(probability)
    } else {
        !is_probability(confidence) && e == GraphError::ProbabilityOutOfRange(confidence)
    }
}

/// An approach that has worked in a kind of situation.
#[derive(Clone, Debug)]
pub struct Pattern {
    pub id: u128,
    pub situation: String,
    pub approach: String,
    pub activation_count: u32,
    pub success_rate: Probability,
    pub created_at: Timestamp,
    /// The project that the pattern belongs to, if any.
    pub project: Option<String>,
}

impl Pattern {
    /// A new pattern, not yet activated, without project.
    pub fn new(situation: String, approach: String, success_rate: Binary64) -> (r: Result<
        Pattern,
        GraphError,
    >)
        ensures
            match r {
                Ok(p) => {
                    &&& is_probability(success_rate)
                    &&& is_random_id(p.id)
                    &&& p.situation == situation
                    &&& p.approach == approach
                    &&& p.activation_count == 0
                    &&& p.success_rate.units() == success_rate.value()
                    &&& p.project is None
                },
                Err(e) => !is_probability(success_rate) && e == GraphError::ProbabilityOutOfRange(
                    success_rate,
                ),
            },
    {
        Pattern::created(fresh_id(), now(), situation, approach, success_rate)
    }

    /// A pattern with the given identifier, created at the given time.
    pub fn created(
        id: u128,
        at: Timestamp,
        situation: String,
        approach: String,
        success_rate: Binary64,
    ) -> (r: Result<Pattern, GraphError>)
        ensures
            match r {
                Ok(p) => {
                    &&& is_probability(success_rate)
                    &&& p == (Pattern {
                        id,
                        situation,
                        approach,
                        activation_count: 0,
                        success_rate: p.success_rate,
                        created_at: at,
                        project: None,
                    })
                    &&& p.success_rate.units() == success_rate.value()
                },
                Err(e) => !is_probability(success_rate) && e == GraphError::ProbabilityOutOfRange(
                    success_rate,
                ),
            },
    {
        match Probability::new(success_rate) {
            Ok(rate) => Ok(
                Pattern {
                    id,
                    situation,
                    approach,
                    activation_count: 0,
                    success_rate: rate,
                    created_at: at,
                    project: None,
                },
            ),
            Err(e) => Err(e),
        }
    }
}

/// An edge from one belief to another.
#[derive(Clone, Debug)]
pub struct Edge {
    pub from_id: u128,
    pub to_id: u128,
    pub edge_type: EdgeType,
    pub weight: Probability,
}

impl Edge {
    /// An edge of the given weight.
    pub fn new(from_id: u128, to_id: u128, edge_type: EdgeType, weight: Binary64) -> (r: Result<
        Edge,
        GraphError,
    >)
        ensures
            match r {
                Ok(e) => {
                    &&& is_probability(weight)
                    &&& e == (Edge { from_id, to_id, edge_type, weight: e.weight })
                    &&& e.weight.units() == weight.value()
                },
                Err(e) => !is_probability(weight) && e == GraphError::ProbabilityOutOfRange(
                    weight,
                ),
            },
    {
        match Probability::new(weight) {
            Ok(w) => Ok(Edge { from_id, to_id, edge_type, weight: w }),
            Err(e) => Err(e),
        }
    }
}

/// Bit pattern of one: the count that a ground of full weight stands for.
pub const EVIDENCE_MASS_K: u64 = 0x3FF0_0000_0000_0000;

/// A mass of grounds: a finite number without sign.
pub open spec fn is_mass(v: Binary64) -> bool {
    v.bits < INFINITY_BITS
}

/// The count that grounds of the given total weight stand for.
pub open spec fn evidence_mass(weight: nat) -> nat {
    times(pattern_units(EVIDENCE_MASS_K), weight)
}

/// The count that grounds of the given total weight stand for.
pub fn mass_of_grounds(weight: Binary64) -> (r: Binary64)
    requires
        weight.bits < INFINITY_BITS,
    ensures
        r.units() == evidence_mass(weight.units()),
        r == weight,
{
    let r = Binary64 { bits: EVIDENCE_MASS_K }.product(weight);
    proof {
        lemma_one_units();
        lemma_pattern_representable(weight.bits);
        vstd::arithmetic::mul::lemma_mul_is_commutative(one() as int, weight.units() as int);
        lemma_round_exact(53, weight.units(), one());
        if r.bits < weight.bits {
            lemma_pattern_order(r.bits, weight.bits);
        }
    }
    r
}

/// The count in favour of a belief after a passage of the given weight came to
/// ground it. It does not fall.
pub fn coupled_alpha(alpha: Binary64, weight: Probability) -> (r: Binary64)
    requires
        is_count(alpha),
    ensures
        r.bits < INFINITY_BITS,
        r.units() == plus(alpha.units(), evidence_mass(weight.units())),
        r.units() == plus(alpha.units(), weight.units()),
        r.units() >= alpha.units(),
{
    let w = mass_of_grounds(weight.value());
    let r = alpha.sum(w);
    proof {
        lemma_pattern_representable(alpha.bits);
        lemma_round_at_least(53, alpha.units() + w.units(), 1, alpha.units());
    }
    r
}

/// Time does not raise a probability: what remains of it is no more than it was.
pub proof fn law_decay_never_raises(p: Probability, retention: Binary64)
    requires
        !retention.is_nan(),
        0 <= retention.value() <= one(),
        p.units() <= one(),
    ensures
        attenuated(p.units(), retention) <= p.units(),
{
    lemma_unit_range(retention);
    if !retention.is_negative() {
        crate::binary64::lemma_times_at_most(
            retention.units(),
            p.units(),
            retention.bits,
            p.number.bits,
        );
        vstd::arithmetic::mul::lemma_mul_is_commutative(
            retention.units() as int,
            p.units() as int,
        );
    }
}

} // verus!
