use mimir::escape::{json_esc, sql_esc};

const SAMPLES: [&str; 7] = [
    "",
    "plain",
    "quote \" backslash \\ slash /",
    "control \u{0}\u{1}\u{8}\u{9}\n\u{b}\u{c}\r\u{1f} end",
    "it's ''quoted''",
    "\u{7f}\u{80}\u{2028}\u{1f600}",
    "'); DROP TABLE beliefs; --",
];

#[test]
fn json_escapes_are_read_back() {
    for s in SAMPLES {
        let text = format!("\"{}\"", json_esc(s));
        assert_eq!(serde_json::from_str::<String>(&text).unwrap(), s);
    }
}

#[test]
fn json_escapes_are_the_short_ones() {
    assert_eq!(json_esc("\\\"\u{8}\u{c}\n\r\t"), "\\\\\\\"\\b\\f\\n\\r\\t");
    assert_eq!(json_esc("\u{0}\u{1f}\u{b}"), "\\u0000\\u001f\\u000b");
    assert_eq!(json_esc("a'/\u{e9}"), "a'/\u{e9}");
}

#[test]
fn sql_quotes_are_doubled() {
    for s in SAMPLES {
        assert_eq!(sql_esc(s), s.replace('\'', "''"));
        // Read back: every quote has its pair.
        let mut read = String::new();
        let escaped = sql_esc(s);
        let mut it = escaped.chars();
        while let Some(c) = it.next() {
            if c == '\'' {
                assert_eq!(it.next(), Some('\''));
            }
            read.push(c);
        }
        assert_eq!(read, s);
    }
    assert_eq!(sql_esc("it's"), "it''s");
}
