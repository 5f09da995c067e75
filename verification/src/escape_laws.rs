//! How texts are escaped and how identifiers are written.
use vstd::arithmetic::power2::*;
use vstd::prelude::*;

use crate::escape::{digit_value, is_control, json_char, json_escaped, sql_escaped};
use crate::ids::{hex_digit, id_digit, id_text, simple_id_text};

verus! {

/// A hexadecimal digit is read back as its number, and is a figure or a small letter.
pub proof fn law_hexadecimal_digits_are_read_back(n: nat)
    requires
        n < 16,
    ensures
        digit_value(hex_digit(n)) == Some(n),
        hex_digit(n) as u32 == if n < 10 {
            48 + n
        } else {
            87 + n
        },
{
    assert(n == 0 || n == 1 || n == 2 || n == 3 || n == 4 || n == 5 || n == 6 || n == 7 || n == 8
        || n == 9 || n == 10 || n == 11 || n == 12 || n == 13 || n == 14 || n == 15);
}

/// A text is escaped character by character, in its order.
pub proof fn law_texts_are_escaped_in_order(a: Seq<char>, b: Seq<char>)
    ensures
        json_escaped(a + b) == json_escaped(a) + json_escaped(b),
        sql_escaped(a + b) == sql_escaped(a) + sql_escaped(b),
    decreases a.len(),
{
    if a.len() == 0 {
        assert(a + b =~= b);
        assert(json_escaped(a) + json_escaped(b) =~= json_escaped(b));
        assert(sql_escaped(a) + sql_escaped(b) =~= sql_escaped(b));
    } else {
        let t = a.drop_first();
        assert((a + b)[0] == a[0]);
        assert((a + b).drop_first() =~= t + b);
        law_texts_are_escaped_in_order(t, b);
        assert(json_char(a[0]) + (json_escaped(t) + json_escaped(b)) =~= (json_char(a[0])
            + json_escaped(t)) + json_escaped(b));
        assert(sql_escaped(a + b) =~= sql_escaped(a) + sql_escaped(b));
    }
}

/// In a JSON string quotes and backslashes stand behind a backslash, as do the letters for
/// backspace, tabulator, line feed, form feed and carriage return; other control characters
/// stand as their code in four hexadecimal digits. Every other character stands for itself.
pub proof fn law_special_characters_are_escaped(c: char)
    ensures
        ({
            let r = json_escaped(seq![c]);
            let n = c as u32;
            &&& n > 31 && n != 34 && n != 92 ==> r == seq![c]
            &&& n == 34 || n == 92 ==> r == seq!['\\', c]
            &&& n == 8 ==> r == seq!['\\', 'b']
            &&& n == 9 ==> r == seq!['\\', 't']
            &&& n == 10 ==> r == seq!['\\', 'n']
            &&& n == 12 ==> r == seq!['\\', 'f']
            &&& n == 13 ==> r == seq!['\\', 'r']
            &&& n <= 31 && n != 8 && n != 9 && n != 10 && n != 12 && n != 13 ==> {
                &&& r.len() == 6
                &&& r.take(4) == seq!['\\', 'u', '0', '0']
                &&& digit_value(r[4]) is Some && digit_value(r[5]) is Some
                &&& 16 * digit_value(r[4])->0 + digit_value(r[5])->0 == n
            }
        }),
{
    let s = seq![c];
    let n = c as u32;
    assert(s.drop_first() =~= Seq::<char>::empty());
    reveal_with_fuel(json_escaped, 2);
    assert(json_escaped(s) =~= json_char(c));
    if n <= 31 {
        assert(is_control(c));
        law_hexadecimal_digits_are_read_back(n as nat / 16);
        law_hexadecimal_digits_are_read_back(n as nat % 16);
        if n != 8 && n != 9 && n != 10 && n != 12 && n != 13 {
            assert(json_char(c).take(4) =~= seq!['\\', 'u', '0', '0']);
        }
    }
}

/// In an SQL literal a quote stands twice and every other character for itself.
pub proof fn law_quotes_are_doubled(c: char)
    ensures
        sql_escaped(seq![c]) == if c as u32 == 39 {
            seq![c, c]
        } else {
            seq![c]
        },
{
    let s = seq![c];
    assert(s.drop_first() =~= Seq::<char>::empty());
    reveal_with_fuel(sql_escaped, 2);
    assert(sql_escaped(s) =~= if c as u32 == 39 {
        seq![c, c]
    } else {
        seq![c]
    });
}

/// An identifier is written in 36 characters: its digits from the highest to the lowest,
/// with hyphens behind the eighth, twelfth, sixteenth and twentieth.
pub proof fn law_identifiers_are_written_digit_by_digit(id: u128, i: int)
    requires
        0 <= i < 32,
    ensures
        simple_id_text(id).len() == 32,
        digit_value(simple_id_text(id)[i]) == Some(
            (id as nat / pow2((4 * (31 - i)) as nat)) % 16,
        ),
        id_text(id).len() == 36,
        id_text(id)[8] as u32 == 45 && id_text(id)[13] as u32 == 45 && id_text(id)[18] as u32 == 45
            && id_text(id)[23] as u32 == 45,
        id_text(id)[i + if i < 8 {
            0int
        } else if i < 12 {
            1
        } else if i < 16 {
            2
        } else if i < 20 {
            3
        } else {
            4
        }] == simple_id_text(id)[i],
{
    let n = (id as nat / pow2((4 * (31 - i)) as nat)) % 16;
    assert(n < 16) by {
        vstd::arithmetic::div_mod::lemma_mod_bound(
            (id as nat / pow2((4 * (31 - i)) as nat)) as int,
            16,
        );
    }
    law_hexadecimal_digits_are_read_back(n);
    assert(simple_id_text(id)[i] == id_digit(id, i));
}

} // verus!
