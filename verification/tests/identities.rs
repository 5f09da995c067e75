use mimir::ids::{format_id, new_id, parse_id};
use mimir::time::Timestamp;

#[test]
fn identifiers_are_written_as_uuid_text() {
    let id = 0x0123_4567_89ab_cdef_0123_4567_89ab_cdefu128;
    assert_eq!(format_id(id), "01234567-89ab-cdef-0123-456789abcdef");
    assert_eq!(format_id(0), "00000000-0000-0000-0000-000000000000");
}

#[test]
fn identifiers_are_read_back() {
    for _ in 0..20 {
        let id = new_id();
        assert_eq!(parse_id(&format_id(id)), Ok(id));
    }
    assert_eq!(
        parse_id("01234567-89AB-CDEF-0123-456789ABCDEF"),
        Ok(0x0123_4567_89ab_cdef_0123_4567_89ab_cdef)
    );
    assert_eq!(parse_id("0123456789abcdef0123456789abcdef"), Ok(0x0123_4567_89ab_cdef_0123_4567_89ab_cdef));
}

#[test]
fn what_is_no_identifier_is_refused_with_a_reason() {
    for s in ["", "not-an-id", "01234567-89ab-cdef-0123-456789abcdeg"] {
        let reason = uuid::Uuid::parse_str(s).unwrap_err().to_string();
        assert_eq!(parse_id(s), Err(reason));
    }
}

#[test]
fn texts_are_ordered_as_identifiers() {
    let mut ids: Vec<u128> = (0..50).map(|_| new_id()).collect();
    ids.extend([0, 1, 9, 10, u128::MAX, 1 << 127, (1 << 64) - 1, 1 << 64]);
    for &a in &ids {
        for &b in &ids {
            assert_eq!(a < b, format_id(a) < format_id(b));
        }
    }
}

#[test]
fn fresh_identifiers_are_random_ones() {
    let id = new_id();
    assert_eq!((id >> 76) & 0xf, 4);
    assert_eq!((id >> 62) & 3, 2);
    assert_ne!(id, new_id());
}

#[test]
fn points_in_time_have_bounds() {
    assert!(Timestamp::new(0, 0).is_some());
    assert!(Timestamp::new(-8_334_601_228_800, 0).is_some());
    assert!(Timestamp::new(8_210_266_876_799, 999_999_999).is_some());
    assert!(Timestamp::new(-8_334_601_228_801, 0).is_none());
    assert!(Timestamp::new(8_210_266_876_800, 0).is_none());
    // A leap second can only follow the 59th second of a minute.
    assert!(Timestamp::new(59, 1_000_000_000).is_some());
    assert!(Timestamp::new(-1, 1_999_999_999).is_some());
    assert!(Timestamp::new(58, 1_000_000_000).is_none());
    assert!(Timestamp::new(59, 2_000_000_000).is_none());
}

#[test]
fn differences_are_those_of_the_calendar() {
    let points = [
        (0i64, 0u32),
        (59, 1_500_000_000),
        (60, 0),
        (-1, 1_000_000_000),
        (-1, 5),
        (86_399, 999_999_999),
        (86_400, 1),
        (1_700_000_000, 123_456_789),
        (-62_167_219_200, 0),
        (253_402_300_799, 999_999_999),
    ];
    for a in points {
        for b in points {
            let x = Timestamp::new(a.0, a.1).unwrap();
            let y = Timestamp::new(b.0, b.1).unwrap();
            let p = chrono::DateTime::from_timestamp(a.0, a.1).unwrap();
            let q = chrono::DateTime::from_timestamp(b.0, b.1).unwrap();
            assert_eq!(x.seconds_since(&y), (p - q).num_seconds(), "{a:?} {b:?}");
        }
    }
}

#[test]
fn the_range_of_points_in_time_is_that_of_the_calendar() {
    for secs in [-8_334_601_228_800i64, 8_210_266_876_799] {
        assert!(chrono::DateTime::from_timestamp(secs, 0).is_some());
    }
}
