//! Text as sequences of characters: comparing, trimming, splitting, searching.
use vstd::prelude::*;
use vstd::slice::slice_subrange;
use vstd::string::*;
use vstd::utf8::*;

verus! {

/// Unicode white space.
pub open spec fn is_white(c: char) -> bool {
    ||| '\u{9}' <= c <= '\u{d}'
    ||| c == ' '
    ||| c == '\u{85}'
    ||| c == '\u{a0}'
    ||| c == '\u{1680}'
    ||| '\u{2000}' <= c <= '\u{200a}'
    ||| c == '\u{2028}'
    ||| c == '\u{2029}'
    ||| c == '\u{202f}'
    ||| c == '\u{205f}'
    ||| c == '\u{3000}'
}

/// The text without leading white space.
pub open spec fn trimmed_start(s: Seq<char>) -> Seq<char>
    decreases s.len(),
{
    if s.len() > 0 && is_white(s[0]) {
        trimmed_start(s.drop_first())
    } else {
        s
    }
}

/// The text without trailing white space.
pub open spec fn trimmed_end(s: Seq<char>) -> Seq<char>
    decreases s.len(),
{
    if s.len() > 0 && is_white(s.last()) {
        trimmed_end(s.drop_last())
    } else {
        s
    }
}

/// The text without white space at either end.
pub open spec fn trimmed(s: Seq<char>) -> Seq<char> {
    trimmed_end(trimmed_start(s))
}

/// Position of the first `c`, or the length of the text where there is none.
pub open spec fn first_index(s: Seq<char>, c: char) -> int
    decreases s.len(),
{
    if s.len() == 0 || s[0] == c {
        0
    } else {
        1 + first_index(s.drop_first(), c)
    }
}

/// A line without the carriage return before its line feed.
pub open spec fn without_return(line: Seq<char>) -> Seq<char> {
    if line.len() > 0 && line.last() == '\r' {
        line.drop_last()
    } else {
        line
    }
}

/// The lines of a text, without their line ends. Nothing follows a final line feed.
pub open spec fn lines(s: Seq<char>) -> Seq<Seq<char>>
    decreases s.len(),
{
    let i = first_index(s, '\n');
    if s.len() == 0 {
        Seq::empty()
    } else if i < 0 || i >= s.len() {
        seq![s]
    } else {
        seq![without_return(s.take(i))] + lines(s.skip(i + 1))
    }
}

/// Length of the part of a text before its first white space.
pub open spec fn word_length(s: Seq<char>) -> int
    decreases s.len(),
{
    if s.len() == 0 || is_white(s[0]) {
        0
    } else {
        1 + word_length(s.drop_first())
    }
}

/// The words of a text: its longest parts without white space, in order.
pub open spec fn words(s: Seq<char>) -> Seq<Seq<char>>
    decreases s.len(),
{
    if s.len() == 0 {
        Seq::empty()
    } else if is_white(s[0]) {
        words(s.drop_first())
    } else {
        let n = word_length(s);
        if n <= 0 || n > s.len() {
            Seq::empty()
        } else {
            seq![s.take(n)] + words(s.skip(n))
        }
    }
}

/// `needle` stands somewhere in `hay`.
pub open spec fn has_part(hay: Seq<char>, needle: Seq<char>) -> bool {
    exists|i: int|
        #![trigger hay.subrange(i, i + needle.len())]
        0 <= i <= hay.len() - needle.len() && hay.subrange(i, i + needle.len()) == needle
}

/// What `str::to_lowercase` makes of a text.
pub uninterp spec fn lower_case(s: Seq<char>) -> Seq<char>;

/// Calls `str::to_lowercase`. The result is a function of the text.
#[verifier::external_body]
pub(crate) fn to_lower_case(s: &str) -> (r: String)
    ensures
        r@ == lower_case(s@),
{
    s.to_lowercase()
}

/// `String::push` appends one character.
pub assume_specification[ String::push ](s: &mut String, c: char)
    ensures
        final(s)@ == old(s)@.push(c),
;

/// Whether two texts are the same.
pub fn same_text(a: &str, b: &str) -> (r: bool)
    ensures
        r == (a@ == b@),
{
    let x = a.as_bytes();
    let y = b.as_bytes();
    proof {
        encode_utf8_decode_utf8(a@);
        encode_utf8_decode_utf8(b@);
    }
    if x.len() != y.len() {
        return false;
    }
    let n: usize = x.len();
    let mut i: usize = 0;
    while i < n
        invariant
            i <= n,
            n == x@.len(),
            n == y@.len(),
            x@ == encode_utf8(a@),
            y@ == encode_utf8(b@),
            forall|j: int| 0 <= j < i ==> x@[j] == y@[j],
        decreases n - i,
    {
        if x[i] != y[i] {
            return false;
        }
        i = i + 1;
    }
    assert(x@ =~= y@);
    true
}

/// Whether two optional texts are the same.
pub open spec fn optional_text(t: Option<String>) -> Option<Seq<char>> {
    match t {
        Some(s) => Some(s@),
        None => None,
    }
}

/// A copy of an optional text.
pub fn copy_optional(t: &Option<String>) -> (r: Option<String>)
    ensures
        r == *t,
{
    match t {
        Some(s) => Some(s.clone()),
        None => None,
    }
}

/// A copy of a list of texts.
pub fn copy_texts(texts: &Vec<String>) -> (r: Vec<String>)
    ensures
        r@ == texts@,
{
    let mut r: Vec<String> = Vec::new();
    let n: usize = texts.len();
    let mut i: usize = 0;
    while i < n
        invariant
            i <= n,
            n == texts@.len(),
            r@ == texts@.take(i as int),
        decreases n - i,
    {
        r.push(texts[i].clone());
        i = i + 1;
        assert(r@ =~= texts@.take(i as int));
    }
    assert(texts@.take(n as int) =~= texts@);
    r
}

/// The characters of a text.
pub fn chars_of(s: &str) -> (r: Vec<char>)
    ensures
        r@ == s@,
{
    let mut r: Vec<char> = Vec::new();
    for c in it: s.chars()
        invariant
            r@ == s@.take(it.index()),
            it.seq() == s@,
    {
        assert(s@.take(it.index()).push(c) =~= s@.take(it.index() + 1));
        r.push(c);
    }
    assert(s@.take(s@.len() as int) =~= s@);
    r
}

/// Appends characters to a text.
pub fn append_chars(s: &mut String, cs: &[char])
    ensures
        final(s)@ == old(s)@ + cs@,
{
    let n: usize = cs.len();
    let mut i: usize = 0;
    let ghost before = s@;
    assert(before + cs@.take(0) =~= before);
    while i < n
        invariant
            i <= n,
            n == cs@.len(),
            s@ == before + cs@.take(i as int),
        decreases n - i,
    {
        s.push(cs[i]);
        i = i + 1;
        assert(s@ =~= before + cs@.take(i as int));
    }
    assert(cs@.take(n as int) =~= cs@);
}

/// The text that consists of the given characters.
pub fn text_of(cs: &[char]) -> (r: String)
    ensures
        r@ == cs@,
{
    let mut r: String = String::new();
    append_chars(&mut r, cs);
    assert(Seq::<char>::empty() + cs@ =~= cs@);
    r
}

/// Whether a character is white space.
pub fn is_white_space(c: char) -> (r: bool)
    ensures
        r == is_white(c),
{
    ('\u{9}' <= c && c <= '\u{d}') || c == ' ' || c == '\u{85}' || c == '\u{a0}' || c == '\u{1680}'
        || ('\u{2000}' <= c && c <= '\u{200a}') || c == '\u{2028}' || c == '\u{2029}' || c
        == '\u{202f}' || c == '\u{205f}' || c == '\u{3000}'
}

/// The characters without white space at either end.
pub fn trim(cs: &[char]) -> (r: &[char])
    ensures
        r@ == trimmed(cs@),
{
    let n: usize = cs.len();
    let mut i: usize = 0;
    assert(cs@.subrange(0, n as int) =~= cs@);
    while i < n && is_white_space(cs[i])
        invariant
            i <= n,
            n == cs@.len(),
            trimmed_start(cs@) == trimmed_start(cs@.subrange(i as int, n as int)),
        decreases n - i,
    {
        assert(cs@.subrange(i as int, n as int).drop_first() =~= cs@.subrange(i + 1, n as int));
        i = i + 1;
    }
    assert(trimmed_start(cs@) == cs@.subrange(i as int, n as int));
    let mut j: usize = n;
    while j > i && is_white_space(cs[j - 1])
        invariant
            i <= j <= n,
            n == cs@.len(),
            trimmed_end(cs@.subrange(i as int, n as int)) == trimmed_end(
                cs@.subrange(i as int, j as int),
            ),
        decreases j,
    {
        assert(cs@.subrange(i as int, j as int).drop_last() =~= cs@.subrange(i as int, j - 1));
        assert(cs@.subrange(i as int, j as int).last() == cs@[j - 1]);
        j = j - 1;
    }
    slice_subrange(cs, i, j)
}

/// A text without white space at either end.
pub fn trim_text(s: &str) -> (r: String)
    ensures
        r@ == trimmed(s@),
{
    let cs = chars_of(s);
    text_of(trim(cs.as_slice()))
}

/// Position of the first `c`, or the length where there is none.
pub fn find_char(cs: &[char], c: char) -> (r: usize)
    ensures
        r == first_index(cs@, c),
        r <= cs@.len(),
        r < cs@.len() ==> cs@[r as int] == c,
        forall|j: int| 0 <= j < r ==> cs@[j] != c,
{
    let n: usize = cs.len();
    let mut i: usize = 0;
    assert(cs@.subrange(0, n as int) =~= cs@);
    while i < n && cs[i] != c
        invariant
            i <= n,
            n == cs@.len(),
            first_index(cs@, c) == i + first_index(cs@.subrange(i as int, n as int), c),
            forall|j: int| 0 <= j < i ==> cs@[j] != c,
        decreases n - i,
    {
        assert(cs@.subrange(i as int, n as int).drop_first() =~= cs@.subrange(i + 1, n as int));
        i = i + 1;
    }
    i
}

/// The lines of a text.
pub fn split_lines(cs: &[char]) -> (r: Vec<&[char]>)
    ensures
        r@.len() == lines(cs@).len(),
        forall|i: int| 0 <= i < r@.len() ==> (#[trigger] r@[i])@ == lines(cs@)[i],
{
    let mut r: Vec<&[char]> = Vec::new();
    let mut rest: &[char] = cs;
    while rest.len() > 0
        invariant
            lines(cs@).len() == r@.len() + lines(rest@).len(),
            forall|i: int| 0 <= i < r@.len() ==> (#[trigger] r@[i])@ == lines(cs@)[i],
            forall|i: int| 0 <= i < lines(rest@).len() ==> lines(cs@)[r@.len() + i] == #[trigger] lines(rest@)[i],
        decreases rest@.len(),
    {
        let n: usize = rest.len();
        let i: usize = find_char(rest, '\n');
        let ghost old_rest = rest@;
        let ghost old_len = r@.len();
        if i >= n {
            r.push(rest);
            rest = slice_subrange(rest, n, n);
            assert(lines(old_rest)[0] == old_rest);
        } else {
            let end: usize = if i > 0 && rest[i - 1] == '\r' {
                i - 1
            } else {
                i
            };
            let line = slice_subrange(rest, 0, end);
            proof {
                if i > 0 {
                    assert(old_rest.take(i as int).drop_last() =~= old_rest.subrange(0, i - 1));
                }
                assert(old_rest.take(i as int) =~= old_rest.subrange(0, i as int));
                assert(line@ == without_return(old_rest.take(i as int)));
            }
            r.push(line);
            rest = slice_subrange(rest, i + 1, n);
            proof {
                assert(rest@ =~= old_rest.skip(i + 1));
                assert(lines(old_rest)[0] == line@);
                assert forall|k: int| 0 <= k < lines(rest@).len() implies lines(cs@)[old_len + 1 + k]
                    == #[trigger] lines(rest@)[k] by {
                    assert(lines(old_rest)[k + 1] == lines(rest@)[k]);
                }
            }
        }
    }
    r
}

/// The words of a text.
pub fn split_words(cs: &[char]) -> (r: Vec<&[char]>)
    ensures
        r@.len() == words(cs@).len(),
        forall|i: int| 0 <= i < r@.len() ==> (#[trigger] r@[i])@ == words(cs@)[i],
{
    let mut r: Vec<&[char]> = Vec::new();
    let n: usize = cs.len();
    let mut i: usize = 0;
    assert(cs@.subrange(0, n as int) =~= cs@);
    while i < n
        invariant
            i <= n,
            n == cs@.len(),
            ({
                let rest = words(cs@.subrange(i as int, n as int));
                &&& words(cs@).len() == r@.len() + rest.len()
                &&& forall|k: int| 0 <= k < rest.len() ==> words(cs@)[r@.len() + k] == #[trigger] rest[k]
            }),
            forall|k: int| 0 <= k < r@.len() ==> (#[trigger] r@[k])@ == words(cs@)[k],
        decreases n - i,
    {
        let ghost from = cs@.subrange(i as int, n as int);
        if is_white_space(cs[i]) {
            assert(from.drop_first() =~= cs@.subrange(i + 1, n as int));
            i = i + 1;
        } else {
            let mut j: usize = i;
            while j < n && !is_white_space(cs[j])
                invariant
                    i <= j <= n,
                    n == cs@.len(),
                    from == cs@.subrange(i as int, n as int),
                    word_length(from) == (j - i) + word_length(cs@.subrange(j as int, n as int)),
                decreases n - j,
            {
                assert(cs@.subrange(j as int, n as int).drop_first() =~= cs@.subrange(j + 1, n as int));
                j = j + 1;
            }
            let word = slice_subrange(cs, i, j);
            proof {
                assert(word_length(from) == j - i);
                assert(from.take(j - i) =~= word@);
                assert(from.skip(j - i) =~= cs@.subrange(j as int, n as int));
                let rest = words(cs@.subrange(j as int, n as int));
                assert(words(from)[0] == word@);
                assert forall|k: int| 0 <= k < rest.len() implies words(cs@)[r@.len() + 1 + k]
                    == #[trigger] rest[k] by {
                    assert(words(from)[k + 1] == rest[k]);
                }
            }
            r.push(word);
            i = j;
        }
    }
    r
}

/// Whether `needle` stands at position `at` of `hay`.
pub fn stands_at(hay: &[char], at: usize, needle: &[char]) -> (r: bool)
    requires
        at + needle@.len() <= hay@.len(),
    ensures
        r == (hay@.subrange(at as int, at + needle@.len()) == needle@),
{
    let n: usize = needle.len();
    let total: usize = hay.len();
    let mut i: usize = 0;
    while i < n
        invariant
            i <= n,
            n == needle@.len(),
            total == hay@.len(),
            at + n <= total,
            forall|j: int| 0 <= j < i ==> hay@[at + j] == needle@[j],
        decreases n - i,
    {
        if hay[at + i] != needle[i] {
            assert(hay@.subrange(at as int, at + n)[i as int] != needle@[i as int]);
            return false;
        }
        i = i + 1;
    }
    assert(hay@.subrange(at as int, at + n) =~= needle@);
    true
}

/// Whether `needle` stands somewhere in `hay`.
pub fn contains_part(hay: &[char], needle: &[char]) -> (r: bool)
    ensures
        r == has_part(hay@, needle@),
{
    let n: usize = hay.len();
    let m: usize = needle.len();
    if m > n {
        return false;
    }
    let mut i: usize = 0;
    while i <= n - m
        invariant
            i <= n - m + 1,
            n == hay@.len(),
            m == needle@.len(),
            m <= n,
            forall|j: int|
                #![trigger hay@.subrange(j, j + needle@.len())]
                0 <= j < i ==> hay@.subrange(j, j + needle@.len()) != needle@,
        decreases n - m + 1 - i,
    {
        if stands_at(hay, i, needle) {
            return true;
        }
        if i == n - m {
            return false;
        }
        i = i + 1;
    }
    false
}

/// The decimal digit of a number below ten.
pub open spec fn decimal_digit(n: nat) -> char {
    seq!['0', '1', '2', '3', '4', '5', '6', '7', '8', '9'][n as int]
}

/// A number in decimal.
pub open spec fn decimal(n: nat) -> Seq<char>
    decreases n,
{
    if n < 10 {
        seq![decimal_digit(n)]
    } else {
        decimal(n / 10).push(decimal_digit(n % 10))
    }
}

/// Writes a number in decimal.
pub fn write_decimal(n: u64) -> (r: String)
    ensures
        r@ == decimal(n as nat),
    decreases n,
{
    let digits: [char; 10] = ['0', '1', '2', '3', '4', '5', '6', '7', '8', '9'];
    let digit: char = digits[(n % 10) as usize];
    if n < 10 {
        let mut r: String = String::new();
        r.push(digit);
        assert(r@ =~= decimal(n as nat));
        r
    } else {
        let mut r = write_decimal(n / 10);
        r.push(digit);
        r
    }
}

/// The number that decimal digits stand for; none where there are no digits, or
/// other characters among them.
pub open spec fn digits_value(s: Seq<char>) -> Option<nat>
    decreases s.len(),
{
    if s.len() == 0 {
        None
    } else {
        let c = s.last();
        let low = (c as u32 - '0' as u32) as nat;
        if !('0' <= c <= '9') {
            None
        } else if s.len() == 1 {
            Some(low)
        } else {
            match digits_value(s.drop_last()) {
                Some(high) => Some(10 * high + low),
                None => None,
            }
        }
    }
}

/// The whole number up to `max` that a text stands for: digits, after a plus
/// sign if there is one.
pub open spec fn whole_value(s: Seq<char>, max: nat) -> Option<nat> {
    let digits = if s.len() > 0 && s[0] == '+' {
        s.drop_first()
    } else {
        s
    };
    match digits_value(digits) {
        Some(n) => if n <= max {
            Some(n)
        } else {
            None
        },
        None => None,
    }
}

/// More digits do not make a number smaller.
proof fn lemma_digits_grow(s: Seq<char>, i: int)
    requires
        0 < i <= s.len(),
    ensures
        digits_value(s) is Some ==> digits_value(s.take(i)) is Some && digits_value(s)->0
            >= digits_value(s.take(i))->0,
    decreases s.len(),
{
    if i == s.len() {
        assert(s.take(i) =~= s);
    } else {
        let shorter = s.drop_last();
        assert(shorter.take(i) =~= s.take(i));
        lemma_digits_grow(shorter, i);
    }
}

/// Reads a whole number.
pub fn parse_whole(text: &str, max: u64) -> (r: Option<u64>)
    ensures
        match r {
            Some(n) => whole_value(text@, max as nat) == Some(n as nat),
            None => whole_value(text@, max as nat) is None,
        },
{
    let cs = chars_of(text);
    let total: usize = cs.len();
    let start: usize = if total > 0 && cs[0] == '+' {
        1
    } else {
        0
    };
    let digits = slice_subrange(cs.as_slice(), start, total);
    let ghost model = digits@;
    proof {
        if start == 1 {
            assert(model =~= text@.drop_first());
        } else {
            assert(model =~= text@);
        }
    }
    let n: usize = digits.len();
    if n == 0 {
        return None;
    }
    let mut value: u64 = 0;
    let mut i: usize = 0;
    while i < n
        invariant
            i <= n,
            n == digits@.len(),
            model == digits@,
            model == if text@.len() > 0 && text@[0] == '+' {
                text@.drop_first()
            } else {
                text@
            },
            value <= max,
            i > 0 ==> digits_value(model.take(i as int)) == Some(value as nat),
            i == 0 ==> value == 0,
        decreases n - i,
    {
        let c = digits[i];
        assert(model.take(i + 1).drop_last() =~= model.take(i as int));
        assert(model.take(i + 1).last() == c);
        if !('0' <= c && c <= '9') {
            proof {
                lemma_digits_grow(model, i + 1);
            }
            return None;
        }
        let low: u64 = c as u64 - '0' as u64;
        let wide: u128 = value as u128 * 10 + low as u128;
        if wide > max as u128 {
            proof {
                assert(digits_value(model.take(i + 1)) == Some(wide as nat));
                lemma_digits_grow(model, i + 1);
            }
            return None;
        }
        value = wide as u64;
        i = i + 1;
    }
    assert(model.take(n as int) =~= model);
    Some(value)
}

} // verus!
