use mimir::text::{
    chars_of, contains_part, is_white_space, parse_whole, same_text, split_lines, split_words,
    text_of, trim_text, write_decimal,
};

const SAMPLES: [&str; 12] = [
    "",
    " ",
    "abc",
    "  two words \t",
    "\u{3000}wide\u{2003}space\u{a0}",
    "line one\nline two\r\nline three\r",
    "\n\n",
    "\r\n\r\nx",
    "no-break\u{202f}here",
    "\u{200b}zero width is no white space",
    "ends with feed\n",
    "\u{85}next\u{2028}line\u{2029}",
];

#[test]
fn white_space_is_that_of_unicode() {
    for code in 0..0x11_0000u32 {
        if let Some(c) = char::from_u32(code) {
            assert_eq!(is_white_space(c), c.is_whitespace(), "{code:x}");
        }
    }
}

#[test]
fn trimming_agrees_with_the_standard_library() {
    for s in SAMPLES {
        assert_eq!(trim_text(s), s.trim());
    }
}

#[test]
fn lines_agree_with_the_standard_library() {
    for s in SAMPLES {
        let cs = chars_of(s);
        let got: Vec<String> = split_lines(&cs).into_iter().map(text_of).collect();
        let want: Vec<String> = s.lines().map(|l| l.to_string()).collect();
        assert_eq!(got, want, "{s:?}");
    }
}

#[test]
fn words_agree_with_the_standard_library() {
    for s in SAMPLES {
        let cs = chars_of(s);
        let got: Vec<String> = split_words(&cs).into_iter().map(text_of).collect();
        let want: Vec<String> = s.split_whitespace().map(|l| l.to_string()).collect();
        assert_eq!(got, want, "{s:?}");
    }
}

#[test]
fn parts_are_found_where_they_stand() {
    for hay in ["", "a", "abcabd", "aaa", "\u{e9}t\u{e9}"] {
        for needle in ["", "a", "abd", "aa", "aaaa", "t\u{e9}", "x"] {
            let h = chars_of(hay);
            let n = chars_of(needle);
            assert_eq!(contains_part(&h, &n), hay.contains(needle), "{hay} {needle}");
        }
    }
}

#[test]
fn texts_are_compared_character_by_character() {
    assert!(same_text("\u{e9}a", "\u{e9}a"));
    assert!(!same_text("a", "ab"));
    assert!(!same_text("ab", "aB"));
    assert!(same_text("", ""));
}

#[test]
fn numbers_are_written_in_decimal() {
    for n in [0u64, 7, 10, 99, 100, 1234567890, u64::MAX] {
        assert_eq!(write_decimal(n), n.to_string());
    }
}

#[test]
fn whole_numbers_are_read_as_the_standard_library_reads_them() {
    for s in [
        "", "+", "-", "0", "+5", "-5", "007", "4294967295", "4294967296", "99999999999999999999",
        "1 ", "a", "1a", "++1", "\u{661}",
    ] {
        assert_eq!(
            parse_whole(s, u32::MAX as u64),
            s.parse::<u32>().ok().map(u64::from),
            "{s:?}"
        );
        assert_eq!(parse_whole(s, u64::MAX), s.parse::<u64>().ok(), "{s:?}");
    }
}
