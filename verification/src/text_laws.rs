//! What texts consist of: words, lines, numbers and the white space around them.
use vstd::prelude::*;

use crate::text::{
    decimal, decimal_digit, digits_value, first_index, has_part, is_white, lines, trimmed,
    trimmed_end, trimmed_start, whole_value, without_return, word_length, words,
};

verus! {

/// White space are tabulators, line ends and form feeds, the space, and the other
/// characters that Unicode counts as such.
pub proof fn law_white_space_is_that_of_unicode(c: char)
    ensures
        is_white(c) <==> ({
            let n = c as u32;
            ||| 9 <= n <= 13
            ||| n == 32
            ||| n == 133
            ||| n == 160
            ||| n == 5760
            ||| 8192 <= n <= 8202
            ||| n == 8232
            ||| n == 8233
            ||| n == 8239
            ||| n == 8287
            ||| n == 12288
        }),
{
}

/// A word ends where white space follows.
proof fn lemma_word_end(a: Seq<char>, rest: Seq<char>)
    requires
        rest.len() > 0,
        is_white(rest[0]),
    ensures
        0 <= word_length(a) <= a.len(),
        word_length(a + rest) == word_length(a),
    decreases a.len(),
{
    if a.len() == 0 {
        assert(a + rest =~= rest);
    } else {
        assert((a + rest)[0] == a[0]);
        if !is_white(a[0]) {
            assert((a + rest).drop_first() =~= a.drop_first() + rest);
            lemma_word_end(a.drop_first(), rest);
        }
    }
}

/// White space separates words: the words of a text are those before a white space and
/// those after it.
pub proof fn law_white_space_separates_words(a: Seq<char>, c: char, b: Seq<char>)
    requires
        is_white(c),
    ensures
        words(a + seq![c] + b) == words(a) + words(b),
    decreases a.len(),
{
    let s = a + seq![c] + b;
    let rest = seq![c] + b;
    assert(s =~= a + rest);
    if a.len() == 0 {
        assert(s.drop_first() =~= b);
        assert(words(a) + words(b) =~= words(b));
    } else {
        assert(s[0] == a[0]);
        if is_white(a[0]) {
            assert(s.drop_first() =~= a.drop_first() + seq![c] + b);
            law_white_space_separates_words(a.drop_first(), c, b);
        } else {
            lemma_word_end(a, rest);
            let n = word_length(a);
            lemma_word_end(a.drop_first(), rest);
            assert(n > 0);
            assert(s.take(n) =~= a.take(n));
            assert(s.skip(n) =~= a.skip(n) + seq![c] + b);
            law_white_space_separates_words(a.skip(n), c, b);
            assert(seq![a.take(n)] + (words(a.skip(n)) + words(b)) =~= (seq![a.take(n)] + words(
                a.skip(n),
            )) + words(b));
        }
    }
}

/// A text without white space is one word, the empty text none.
pub proof fn law_a_text_without_white_space_is_one_word(s: Seq<char>)
    requires
        forall|i: int| 0 <= i < s.len() ==> !is_white(#[trigger] s[i]),
    ensures
        words(s) == if s.len() == 0 {
            Seq::empty()
        } else {
            seq![s]
        },
{
    if s.len() > 0 {
        lemma_whole_word(s);
        assert(s.take(s.len() as int) =~= s);
        assert(s.skip(s.len() as int) =~= Seq::<char>::empty());
        assert(words(Seq::<char>::empty()) =~= Seq::empty());
        assert(seq![s] + Seq::<Seq<char>>::empty() =~= seq![s]);
        assert(!is_white(s[0]));
    }
}

proof fn lemma_whole_word(s: Seq<char>)
    requires
        forall|i: int| 0 <= i < s.len() ==> !is_white(#[trigger] s[i]),
    ensures
        word_length(s) == s.len(),
    decreases s.len(),
{
    if s.len() > 0 {
        let t = s.drop_first();
        assert forall|i: int| 0 <= i < t.len() implies !is_white(#[trigger] t[i]) by {
            assert(t[i] == s[i + 1]);
        }
        lemma_whole_word(t);
    }
}

proof fn lemma_first_feed(a: Seq<char>, b: Seq<char>)
    requires
        !a.contains('\n'),
    ensures
        first_index(a, '\n') == a.len(),
        first_index(a + seq!['\n'] + b, '\n') == a.len(),
    decreases a.len(),
{
    let s = a + seq!['\n'] + b;
    if a.len() > 0 {
        assert(a.contains(a[0]));
        assert(s[0] == a[0]);
        let t = a.drop_first();
        assert(!t.contains('\n')) by {
            if t.contains('\n') {
                let i = choose|i: int| 0 <= i < t.len() && t[i] == '\n';
                assert(a[i + 1] == '\n');
            }
        }
        lemma_first_feed(t, b);
        assert(s.drop_first() =~= t + seq!['\n'] + b);
    } else {
        assert(s[0] == '\n');
    }
}

/// A line feed ends a line, with the carriage return before it if there is one; what
/// follows are further lines. A text without line feed is one line, and the empty text
/// none.
pub proof fn law_line_feeds_end_lines(a: Seq<char>, b: Seq<char>)
    requires
        !a.contains('\n'),
    ensures
        lines(a + seq!['\n'] + b) == seq![
            if a.len() > 0 && a.last() == '\r' {
                a.drop_last()
            } else {
                a
            },
        ] + lines(b),
        lines(a) == if a.len() == 0 {
            Seq::empty()
        } else {
            seq![a]
        },
{
    let s = a + seq!['\n'] + b;
    lemma_first_feed(a, b);
    assert(s.take(a.len() as int) =~= a);
    assert(s.skip((a.len() + 1) as int) =~= b);
    assert(without_return(a) == if a.len() > 0 && a.last() == '\r' {
        a.drop_last()
    } else {
        a
    });
}

/// What is trimmed of a text is white space at its ends, and none is left there.
pub proof fn law_trimming_takes_white_space_only(s: Seq<char>)
    ensures
        exists|a: Seq<char>, b: Seq<char>|
            {
                &&& s == #[trigger] (a + trimmed(s) + b)
                &&& forall|i: int| 0 <= i < a.len() ==> is_white(#[trigger] a[i])
                &&& forall|i: int| 0 <= i < b.len() ==> is_white(#[trigger] b[i])
            },
        trimmed(s).len() > 0 ==> !is_white(trimmed(s)[0]) && !is_white(trimmed(s).last()),
{
    let t = trimmed_start(s);
    lemma_start_trimmed(s);
    lemma_end_trimmed(t);
    let a = s.take(s.len() - t.len());
    let b = t.skip(trimmed(s).len() as int);
    assert(s =~= a + trimmed(s) + b);
    assert(forall|i: int| 0 <= i < a.len() ==> is_white(#[trigger] a[i]));
    assert(forall|i: int| 0 <= i < b.len() ==> is_white(#[trigger] b[i]));
    if trimmed(s).len() > 0 {
        assert(trimmed(s)[0] == t[0]);
    }
}

pub proof fn lemma_start_trimmed(s: Seq<char>)
    ensures
        ({
            let t = trimmed_start(s);
            let n = s.len() - t.len();
            &&& n >= 0
            &&& t == s.skip(n)
            &&& forall|i: int| 0 <= i < n ==> is_white(#[trigger] s[i])
            &&& t.len() > 0 ==> !is_white(t[0])
        }),
    decreases s.len(),
{
    if s.len() > 0 && is_white(s[0]) {
        let d = s.drop_first();
        lemma_start_trimmed(d);
        let t = trimmed_start(s);
        let n = s.len() - t.len();
        assert(d.skip(n - 1) =~= s.skip(n));
        assert forall|i: int| 0 <= i < n implies is_white(#[trigger] s[i]) by {
            if i > 0 {
                assert(s[i] == d[i - 1]);
            }
        }
    } else {
        assert(s.skip(0) =~= s);
    }
}

pub proof fn lemma_end_trimmed(s: Seq<char>)
    ensures
        ({
            let t = trimmed_end(s);
            &&& t.len() <= s.len()
            &&& t == s.take(t.len() as int)
            &&& forall|i: int| t.len() <= i < s.len() ==> is_white(#[trigger] s[i])
            &&& t.len() > 0 ==> !is_white(t.last())
        }),
    decreases s.len(),
{
    if s.len() > 0 && is_white(s.last()) {
        let d = s.drop_last();
        lemma_end_trimmed(d);
        let t = trimmed_end(s);
        assert(d.take(t.len() as int) =~= s.take(t.len() as int));
        assert forall|i: int| t.len() <= i < s.len() implies is_white(#[trigger] s[i]) by {
            if i < d.len() {
                assert(s[i] == d[i]);
            }
        }
    } else {
        assert(s.take(s.len() as int) =~= s);
    }
}

/// A text has every part that stands between some beginning and some end of it, and no
/// other.
pub proof fn law_parts_stand_within_a_text(hay: Seq<char>, needle: Seq<char>)
    ensures
        has_part(hay, needle) <==> exists|a: Seq<char>, b: Seq<char>|
            hay == #[trigger] (a + needle + b),
{
    if has_part(hay, needle) {
        let i = choose|i: int|
            #![trigger hay.subrange(i, i + needle.len())]
            0 <= i <= hay.len() - needle.len() && hay.subrange(i, i + needle.len()) == needle;
        let a = hay.take(i);
        let b = hay.skip(i + needle.len());
        assert(hay =~= a + hay.subrange(i, i + needle.len()) + b);
    }
    if exists|a: Seq<char>, b: Seq<char>| hay == #[trigger] (a + needle + b) {
        let (a, b) = choose|a: Seq<char>, b: Seq<char>| hay == #[trigger] (a + needle + b);
        let i = a.len() as int;
        assert(hay.subrange(i, i + needle.len()) =~= needle);
    }
}

/// A number that is written in decimal is read back, also after a plus sign, unless it is
/// too large.
pub proof fn law_decimal_numbers_are_read_back(n: nat, max: nat)
    ensures
        digits_value(decimal(n)) == Some(n),
        whole_value(decimal(n), max) == if n <= max {
            Some(n)
        } else {
            None
        },
        whole_value(seq!['+'] + decimal(n), max) == if n <= max {
            Some(n)
        } else {
            None
        },
        n > 0 ==> decimal(n)[0] != '0',
{
    lemma_decimal(n);
    assert((seq!['+'] + decimal(n)).drop_first() =~= decimal(n));
}

proof fn lemma_decimal(n: nat)
    ensures
        digits_value(decimal(n)) == Some(n),
        decimal(n).len() > 0,
        '0' <= decimal(n)[0] <= '9',
        n > 0 ==> decimal(n)[0] != '0',
    decreases n,
{
    if n < 10 {
        lemma_digit(n);
        assert(decimal(n).last() == decimal_digit(n));
    } else {
        let h = n / 10;
        lemma_decimal(h);
        lemma_digit(n % 10);
        let s = decimal(n);
        assert(s.drop_last() =~= decimal(h));
        assert(s.last() == decimal_digit(n % 10));
        assert(s[0] == decimal(h)[0]);
        assert(n == 10 * h + n % 10);
    }
}

proof fn lemma_digit(n: nat)
    requires
        n < 10,
    ensures
        '0' <= decimal_digit(n) <= '9',
        decimal_digit(n) as u32 - '0' as u32 == n,
        n > 0 ==> decimal_digit(n) != '0',
{
    assert(n == 0 || n == 1 || n == 2 || n == 3 || n == 4 || n == 5 || n == 6 || n == 7 || n == 8
        || n == 9);
}

/// Texts that are numbers consist of digits, at least one.
pub proof fn law_only_digits_make_a_number(s: Seq<char>)
    ensures
        digits_value(s) is Some <==> s.len() > 0 && forall|i: int|
            0 <= i < s.len() ==> '0' <= #[trigger] s[i] <= '9',
    decreases s.len(),
{
    if s.len() > 1 {
        let t = s.drop_last();
        law_only_digits_make_a_number(t);
        assert(s[s.len() - 1] == s.last());
        assert forall|i: int| 0 <= i < t.len() implies #[trigger] t[i] == s[i] by {}
        if digits_value(s) is Some {
            assert forall|i: int| 0 <= i < s.len() implies '0' <= #[trigger] s[i] <= '9' by {
                if i < t.len() {
                    assert('0' <= t[i] <= '9');
                }
            }
        }
        if forall|i: int| 0 <= i < s.len() ==> '0' <= #[trigger] s[i] <= '9' {
            assert forall|i: int| 0 <= i < t.len() implies '0' <= #[trigger] t[i] <= '9' by {
                assert('0' <= s[i] <= '9');
            }
        }
    } else if s.len() == 1 {
        assert(s[0] == s.last());
    }
}

} // verus!
