//! Identifiers: 128-bit numbers, written and read as UUID text.
use vstd::arithmetic::div_mod::*;
use vstd::arithmetic::power2::*;
use vstd::prelude::*;

verus! {

/// The lower-case hexadecimal digit of a number below sixteen.
pub open spec fn hex_digit(n: nat) -> char {
    seq!['0', '1', '2', '3', '4', '5', '6', '7', '8', '9', 'a', 'b', 'c', 'd', 'e', 'f'][n as int]
}

/// The `i`-th of the 32 hexadecimal digits of an identifier, counted from the left.
pub open spec fn id_digit(id: u128, i: int) -> char {
    hex_digit((id as nat / pow2((4 * (31 - i)) as nat)) % 16)
}

/// The 32 hexadecimal digits of an identifier.
pub open spec fn simple_id_text(id: u128) -> Seq<char> {
    Seq::new(32, |i: int| id_digit(id, i))
}

/// The digits of an identifier in groups of 8, 4, 4, 4 and 12, joined by hyphens.
pub open spec fn id_text(id: u128) -> Seq<char> {
    let digits = simple_id_text(id);
    digits.subrange(0, 8) + seq!['-'] + digits.subrange(8, 12) + seq!['-'] + digits.subrange(12, 16)
        + seq!['-'] + digits.subrange(16, 20) + seq!['-'] + digits.subrange(20, 32)
}

/// What `uuid::Uuid::parse_str` makes of a text: the identifier, or the text of
/// the error that it reports.
pub uninterp spec fn parsed_id(text: Seq<char>) -> Result<u128, Seq<char>>;

/// The identifier that a text stands for, if any.
pub open spec fn known_id(text: Seq<char>) -> Option<u128> {
    match parsed_id(text) {
        Ok(id) => Some(id),
        Err(_) => None,
    }
}

/// A random identifier has the version digit four and the variant bits one and
/// zero.
pub open spec fn is_random_id(id: u128) -> bool {
    (id as nat / pow2(76)) % 16 == 4 && (id as nat / pow2(62)) % 4 == 2
}

/// Calls `uuid::Uuid::new_v4`: a random identifier. Of its value nothing is
/// claimed but the version digit, four, and the variant bits, binary ten.
#[verifier::external_body]
pub(crate) fn fresh_id() -> (r: u128)
    ensures
        is_random_id(r),
{
    uuid::Uuid::new_v4().as_u128()
}

/// Calls `to_string` of `uuid::Uuid`, which writes the hyphenated form in lower
/// case.
#[verifier::external_body]
pub(crate) fn write_id(id: u128) -> (r: String)
    ensures
        r@ == id_text(id),
{
    uuid::Uuid::from_u128(id).to_string()
}

/// Calls `to_string` of `uuid::fmt::Simple`, which writes the digits alone, in
/// lower case.
#[verifier::external_body]
pub(crate) fn write_simple_id(id: u128) -> (r: String)
    ensures
        r@ == simple_id_text(id),
{
    uuid::Uuid::from_u128(id).simple().to_string()
}

/// Calls `uuid::Uuid::parse_str`, and `to_string` of the error it reports. The
/// result is a function of the text; the hyphenated form of an identifier is
/// read back as that identifier.
#[verifier::external_body]
fn read_id(text: &str) -> (r: Result<u128, String>)
    ensures
        (match r {
            Ok(id) => Ok(id),
            Err(message) => Err(message@),
        }) == parsed_id(text@),
        forall|id: u128| text@ == #[trigger] id_text(id) ==> r is Ok && r->Ok_0 == id,
{
    uuid::Uuid::parse_str(text).map(|u| u.as_u128()).map_err(|e| e.to_string())
}

/// Reads an identifier from its text, or says why it cannot be read.
pub fn parse_id(text: &str) -> (r: Result<u128, String>)
    ensures
        (match r {
            Ok(id) => Ok(id),
            Err(message) => Err(message@),
        }) == parsed_id(text@),
        forall|id: u128| text@ == #[trigger] id_text(id) ==> r is Ok && r->Ok_0 == id,
{
    read_id(text)
}

/// The text of an identifier.
pub fn format_id(id: u128) -> (r: String)
    ensures
        r@ == id_text(id),
{
    write_id(id)
}

/// A random identifier.
pub fn new_id() -> (r: u128)
    ensures
        is_random_id(r),
{
    fresh_id()
}

/// Where the `i`-th digit of an identifier stands in its text.
pub open spec fn digit_position(i: int) -> int {
    if i < 8 {
        i
    } else if i < 12 {
        i + 1
    } else if i < 16 {
        i + 2
    } else if i < 20 {
        i + 3
    } else {
        i + 4
    }
}

/// The number that the first `i` digits of an identifier make up.
spec fn leading(id: u128, i: int) -> nat {
    id as nat / pow2((4 * (32 - i)) as nat)
}

proof fn lemma_text_digits(id: u128)
    ensures
        id_text(id).len() == 36,
        forall|i: int|
            0 <= i < 32 ==> id_text(id)[digit_position(i)] == #[trigger] id_digit(id, i),
        id_text(id)[8] == '-' && id_text(id)[13] == '-' && id_text(id)[18] == '-'
            && id_text(id)[23] == '-',
{
    let digits = simple_id_text(id);
    assert forall|i: int| 0 <= i < 32 implies id_text(id)[digit_position(i)] == #[trigger] id_digit(
        id,
        i,
    ) by {
        assert(digits[i] == id_digit(id, i));
    }
}

/// The digits of an identifier are read from the left.
proof fn lemma_leading_step(id: u128, i: int)
    requires
        0 <= i < 32,
    ensures
        leading(id, i + 1) == 16 * leading(id, i) + (id as nat / pow2((4 * (31 - i)) as nat)) % 16,
{
    let low = pow2((4 * (31 - i)) as nat);
    let high = pow2((4 * (32 - i)) as nat);
    lemma_pow2_pos((4 * (31 - i)) as nat);
    lemma_pow2_adds((4 * (31 - i)) as nat, 4);
    lemma2_to64();
    assert(high == low * 16);
    lemma_div_denominator(id as int, low as int, 16);
    lemma_fundamental_div_mod((id as nat / low) as int, 16);
}

/// The texts of two identifiers agree up to some digit.
spec fn agree(a: u128, b: u128, i: int) -> bool {
    forall|j: int| 0 <= j < i ==> #[trigger] id_digit(a, j) == id_digit(b, j)
}

proof fn lemma_first_difference(a: u128, b: u128, i: int) -> (d: int)
    requires
        a < b,
        0 <= i <= 32,
        agree(a, b, i),
        leading(a, i) == leading(b, i),
    ensures
        i <= d < 32,
        agree(a, b, d),
        leading(a, d) == leading(b, d),
        (a as nat / pow2((4 * (31 - d)) as nat)) % 16 < (b as nat / pow2((4 * (31 - d)) as nat)) % 16,
    decreases 32 - i,
{
    lemma2_to64();
    if i == 32 {
        assert(pow2(0) == 1);
        lemma_div_basics(a as int);
        lemma_div_basics(b as int);
        assert((4 * (32 - i)) as nat == 0);
        assert(leading(a, i) == a && leading(b, i) == b);
        0
    } else {
        lemma_leading_step(a, i);
        lemma_leading_step(b, i);
        let s = pow2((4 * (31 - i)) as nat);
        lemma_pow2_pos((4 * (31 - i)) as nat);
        lemma_div_is_ordered(a as int, b as int, s as int);
        let x = (a as nat / s) % 16;
        let y = (b as nat / s) % 16;
        if x == y {
            assert(id_digit(a, i) == id_digit(b, i));
            lemma_first_difference(a, b, i + 1)
        } else {
            assert(leading(a, i + 1) == a as nat / s && leading(b, i + 1) == b as nat / s);
            i
        }
    }
}

proof fn lemma_hex_digits_rise(m: nat, n: nat)
    requires
        m < n < 16,
    ensures
        hex_digit(m) < hex_digit(n),
{
}

/// Identifiers are ordered as their texts: the texts of a smaller and a greater
/// one agree up to a position where the first has the smaller character.
pub proof fn law_ids_are_ordered_as_their_texts(a: u128, b: u128)
    requires
        a < b,
    ensures
        exists|p: int|
            0 <= p < 36 && id_text(a).take(p) == id_text(b).take(p) && id_text(a)[p]
                < #[trigger] id_text(b)[p],
{
    lemma2_to64();
    lemma_pow2_adds(64, 64);
    lemma_basic_div(a as int, pow2(128) as int);
    lemma_basic_div(b as int, pow2(128) as int);
    let d = lemma_first_difference(a, b, 0);
    lemma_text_digits(a);
    lemma_text_digits(b);
    let s = pow2((4 * (31 - d)) as nat);
    lemma_hex_digits_rise((a as nat / s) % 16, (b as nat / s) % 16);
    let p = digit_position(d);
    assert(id_text(a)[p] == id_digit(a, d) && id_text(b)[p] == id_digit(b, d));
    assert forall|q: int| 0 <= q < p implies id_text(a)[q] == id_text(b)[q] by {
        let j = if q < 8 {
            q
        } else if 8 < q < 13 {
            q - 1
        } else if 13 < q < 18 {
            q - 2
        } else if 18 < q < 23 {
            q - 3
        } else {
            q - 4
        };
        if q != 8 && q != 13 && q != 18 && q != 23 {
            assert(digit_position(j) == q);
            assert(id_digit(a, j) == id_digit(b, j));
        }
    }
    assert(id_text(a).take(p) =~= id_text(b).take(p));
}

} // verus!
