//! Escaping of text for JSON strings and for SQL string literals.
use vstd::prelude::*;
use vstd::string::*;

use crate::ids::hex_digit;
use crate::text::chars_of;

verus! {

/// The control characters that must be escaped in a JSON string.
pub open spec fn is_control(c: char) -> bool {
    c as u32 <= 31
}

/// How one character stands in a JSON string.
pub open spec fn json_char(c: char) -> Seq<char> {
    if c == '\\' {
        seq!['\\', '\\']
    } else if c == '"' {
        seq!['\\', '"']
    } else if c == '\u{8}' {
        seq!['\\', 'b']
    } else if c == '\u{c}' {
        seq!['\\', 'f']
    } else if c == '\n' {
        seq!['\\', 'n']
    } else if c == '\r' {
        seq!['\\', 'r']
    } else if c == '\t' {
        seq!['\\', 't']
    } else if is_control(c) {
        seq!['\\', 'u', '0', '0', hex_digit(c as u32 as nat / 16), hex_digit(c as u32 as nat % 16)]
    } else {
        seq![c]
    }
}

/// How a text stands in a JSON string.
pub open spec fn json_escaped(s: Seq<char>) -> Seq<char>
    decreases s.len(),
{
    if s.len() == 0 {
        Seq::empty()
    } else {
        json_char(s[0]) + json_escaped(s.drop_first())
    }
}

/// How a text stands in an SQL string literal: each quote is doubled.
pub open spec fn sql_escaped(s: Seq<char>) -> Seq<char>
    decreases s.len(),
{
    if s.len() == 0 {
        Seq::empty()
    } else if s[0] == '\'' {
        seq!['\'', '\''] + sql_escaped(s.drop_first())
    } else {
        seq![s[0]] + sql_escaped(s.drop_first())
    }
}

/// The digit of a number below sixteen.
fn digit_char(n: u32) -> (r: char)
    requires
        n < 16,
    ensures
        r == hex_digit(n as nat),
{
    let digits: [char; 16] = [
        '0',
        '1',
        '2',
        '3',
        '4',
        '5',
        '6',
        '7',
        '8',
        '9',
        'a',
        'b',
        'c',
        'd',
        'e',
        'f',
    ];
    digits[n as usize]
}

/// Adds a character as it stands in a JSON string.
fn push_json_char(out: &mut String, c: char)
    ensures
        final(out)@ == old(out)@ + json_char(c),
{
    let ghost before = out@;
    if c == '\\' {
        out.push('\\');
        out.push('\\');
        assert(out@ =~= before + json_char(c));
    } else if c == '"' {
        out.push('\\');
        out.push('"');
        assert(out@ =~= before + json_char(c));
    } else if c == '\u{8}' {
        out.push('\\');
        out.push('b');
        assert(out@ =~= before + json_char(c));
    } else if c == '\u{c}' {
        out.push('\\');
        out.push('f');
        assert(out@ =~= before + json_char(c));
    } else if c == '\n' {
        out.push('\\');
        out.push('n');
        assert(out@ =~= before + json_char(c));
    } else if c == '\r' {
        out.push('\\');
        out.push('r');
        assert(out@ =~= before + json_char(c));
    } else if c == '\t' {
        out.push('\\');
        out.push('t');
        assert(out@ =~= before + json_char(c));
    } else if c as u32 <= 31 {
        let code: u32 = c as u32;
        out.push('\\');
        out.push('u');
        out.push('0');
        out.push('0');
        out.push(digit_char(code / 16));
        out.push(digit_char(code % 16));
        assert(out@ =~= before + json_char(c));
    } else {
        out.push(c);
        assert(out@ =~= before + json_char(c));
    }
}

/// Escapes a text for a JSON string.
pub fn json_esc(s: &str) -> (r: String)
    ensures
        r@ == json_escaped(s@),
{
    let cs = chars_of(s);
    let n: usize = cs.len();
    let mut out: String = String::new();
    let mut i: usize = 0;
    proof {
        assert(cs@.skip(0) =~= cs@);
        assert(out@ + json_escaped(cs@) =~= json_escaped(cs@));
    }
    while i < n
        invariant
            i <= n,
            n == cs@.len(),
            cs@ == s@,
            out@ + json_escaped(cs@.skip(i as int)) == json_escaped(s@),
        decreases n - i,
    {
        let ghost before = out@;
        push_json_char(&mut out, cs[i]);
        proof {
            let rest = cs@.skip(i as int);
            assert(rest.drop_first() =~= cs@.skip(i + 1));
            assert((before + json_char(rest[0])) + json_escaped(rest.drop_first()) =~= before + (
            json_char(rest[0]) + json_escaped(rest.drop_first())));
        }
        i = i + 1;
    }
    assert(out@ + json_escaped(cs@.skip(n as int)) =~= out@);
    out
}

/// Doubles the quotes of a text for an SQL string literal.
pub fn sql_esc(s: &str) -> (r: String)
    ensures
        r@ == sql_escaped(s@),
{
    let cs = chars_of(s);
    let n: usize = cs.len();
    let mut out: String = String::new();
    let mut i: usize = 0;
    proof {
        assert(cs@.skip(0) =~= cs@);
        assert(out@ + sql_escaped(cs@) =~= sql_escaped(cs@));
    }
    while i < n
        invariant
            i <= n,
            n == cs@.len(),
            cs@ == s@,
            out@ + sql_escaped(cs@.skip(i as int)) == sql_escaped(s@),
        decreases n - i,
    {
        let ghost before = out@;
        let ghost rest = cs@.skip(i as int);
        assert(rest.drop_first() =~= cs@.skip(i + 1));
        out.push(cs[i]);
        if cs[i] == '\'' {
            out.push('\'');
            assert(out@ + sql_escaped(rest.drop_first()) =~= before + (seq!['\'', '\'']
                + sql_escaped(rest.drop_first())));
        } else {
            assert(out@ + sql_escaped(rest.drop_first()) =~= before + (seq![rest[0]]
                + sql_escaped(rest.drop_first())));
        }
        i = i + 1;
    }
    assert(out@ + sql_escaped(cs@.skip(n as int)) =~= out@);
    out
}

/// The number that a hexadecimal digit stands for.
pub open spec fn digit_value(c: char) -> Option<nat> {
    if '0' <= c <= '9' {
        Some((c as u32 as nat - '0' as u32 as nat) as nat)
    } else if 'a' <= c <= 'f' {
        Some((c as u32 as nat - 'a' as u32 as nat + 10) as nat)
    } else if 'A' <= c <= 'F' {
        Some((c as u32 as nat - 'A' as u32 as nat + 10) as nat)
    } else {
        None
    }
}

/// The character that an escape letter stands for.
pub open spec fn escape_letter(c: char) -> Option<char> {
    if c == '"' || c == '\\' || c == '/' {
        Some(c)
    } else if c == 'b' {
        Some('\u{8}')
    } else if c == 'f' {
        Some('\u{c}')
    } else if c == 'n' {
        Some('\n')
    } else if c == 'r' {
        Some('\r')
    } else if c == 't' {
        Some('\t')
    } else {
        None
    }
}

/// The character with a code below 128.
pub open spec fn code_char(n: nat) -> char {
    (n as u8) as char
}

/// Reads the inside of a JSON string: quotes and control characters may not
/// stand unescaped. Of the `\u` escapes only those up to 7f are read.
pub open spec fn json_read(t: Seq<char>) -> Option<Seq<char>>
    decreases t.len(),
{
    if t.len() == 0 {
        Some(Seq::empty())
    } else if t[0] == '"' || is_control(t[0]) {
        None
    } else if t[0] != '\\' {
        match json_read(t.drop_first()) {
            Some(rest) => Some(seq![t[0]] + rest),
            None => None,
        }
    } else if t.len() >= 6 && t[1] == 'u' && t[2] == '0' && t[3] == '0' {
        match (digit_value(t[4]), digit_value(t[5]), json_read(t.skip(6))) {
            (Some(hi), Some(lo), Some(rest)) => if hi < 8 {
                Some(seq![code_char(16 * hi + lo)] + rest)
            } else {
                None
            },
            _ => None,
        }
    } else if t.len() >= 2 {
        match (escape_letter(t[1]), json_read(t.skip(2))) {
            (Some(c), Some(rest)) => Some(seq![c] + rest),
            _ => None,
        }
    } else {
        None
    }
}

/// Reads the inside of an SQL string literal: quotes stand in pairs.
pub open spec fn sql_read(t: Seq<char>) -> Option<Seq<char>>
    decreases t.len(),
{
    if t.len() == 0 {
        Some(Seq::empty())
    } else if t[0] != '\'' {
        match sql_read(t.drop_first()) {
            Some(rest) => Some(seq![t[0]] + rest),
            None => None,
        }
    } else if t.len() >= 2 && t[1] == '\'' {
        match sql_read(t.skip(2)) {
            Some(rest) => Some(seq!['\''] + rest),
            None => None,
        }
    } else {
        None
    }
}

proof fn lemma_hex_digit(n: nat)
    requires
        n < 16,
    ensures
        digit_value(hex_digit(n)) == Some(n),
        hex_digit(n) != '\\',
{
}

/// An escaped text is read back as the text, and so holds no quote that would
/// end the JSON string early.
pub proof fn law_json_escape_is_read_back(s: Seq<char>)
    ensures
        json_read(json_escaped(s)) == Some(s),
    decreases s.len(),
{
    if s.len() == 0 {
    } else {
        let c = s[0];
        let rest = s.drop_first();
        law_json_escape_is_read_back(rest);
        let t = json_escaped(s);
        let tail = json_escaped(rest);
        let head = json_char(c);
        assert(t == head + tail);
        assert(seq![c] + rest =~= s);
        if head.len() == 1 {
            assert(t.drop_first() =~= tail);
        } else if head.len() == 2 {
            assert(t.skip(2) =~= tail);
            assert(t[1] == head[1]);
            assert(t[1] != 'u');
        } else {
            let code = c as u32 as nat;
            assert(t.skip(6) =~= tail);
            assert(t[4] == hex_digit(code / 16) && t[5] == hex_digit(code % 16));
            lemma_hex_digit(code / 16);
            lemma_hex_digit(code % 16);
            assert(16 * (code / 16) + code % 16 == code);
            assert(code < 32);
            lemma_code_char(c);
        }
    }
}

proof fn lemma_code_char(c: char)
    requires
        is_control(c),
    ensures
        code_char(c as u32 as nat) == c,
{
    let n = c as u8;
    assert(c as u32 as nat == n as nat);
    assert(n as char == c);
}

/// An escaped text is read back as the text, and so holds no quote that would
/// end the SQL literal early.
pub proof fn law_sql_escape_is_read_back(s: Seq<char>)
    ensures
        sql_read(sql_escaped(s)) == Some(s),
    decreases s.len(),
{
    if s.len() > 0 {
        let rest = s.drop_first();
        law_sql_escape_is_read_back(rest);
        let t = sql_escaped(s);
        let tail = sql_escaped(rest);
        assert(seq![s[0]] + rest =~= s);
        if s[0] == '\'' {
            assert(t.skip(2) =~= tail);
        } else {
            assert(t.drop_first() =~= tail);
        }
    }
}

} // verus!
