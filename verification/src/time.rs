//! Points in time, in seconds and nanoseconds since 1970 (UTC).
use chrono::{DateTime, Utc};
use vstd::arithmetic::div_mod::lemma_mod_multiples_vanish;
use vstd::prelude::*;

verus! {

/// First second that can be held.
pub const FIRST_SECOND: i64 = -8_334_601_228_800;

/// Last second that can be held.
pub const LAST_SECOND: i64 = 8_210_266_876_799;

/// A point in time. Nanoseconds from one thousand million on stand for a leap
/// second, which can only follow the 59th second of a minute.
#[derive(Clone, Copy, Debug, PartialEq, Eq, Structural)]
pub struct Timestamp {
    secs: i64,
    nanos: u32,
}

/// The seconds and nanoseconds that a `Timestamp` can hold.
pub open spec fn valid_instant(secs: int, nanos: int) -> bool {
    &&& FIRST_SECOND <= secs <= LAST_SECOND
    &&& 0 <= nanos < 2_000_000_000
    &&& nanos >= 1_000_000_000 ==> secs % 60 == 59
}

impl Timestamp {
    #[verifier::type_invariant]
    spec fn is_valid(self) -> bool {
        valid_instant(self.secs as int, self.nanos as int)
    }

    /// Whole seconds since 1970.
    pub closed spec fn seconds(self) -> i64 {
        self.secs
    }

    /// Nanoseconds beyond the whole seconds.
    pub closed spec fn subsec_nanos(self) -> u32 {
        self.nanos
    }

    /// The point in time with the given seconds and nanoseconds.
    pub fn new(secs: i64, nanos: u32) -> (r: Option<Timestamp>)
        ensures
            r is Some <==> valid_instant(secs as int, nanos as int),
            r is Some ==> r->0.seconds() == secs && r->0.subsec_nanos() == nanos,
    {
        if FIRST_SECOND <= secs && secs <= LAST_SECOND && (nanos < 1_000_000_000 || (nanos
            < 2_000_000_000 && second_of_minute(secs) == 59)) {
            Some(Timestamp { secs, nanos })
        } else {
            None
        }
    }

    pub fn secs(&self) -> (r: i64)
        ensures
            r == self.seconds(),
    {
        self.secs
    }

    pub fn nanos(&self) -> (r: u32)
        ensures
            r == self.subsec_nanos(),
    {
        self.nanos
    }

    /// Nanoseconds from `earlier` to `self`, negative where `earlier` is later.
    pub fn nanos_since(&self, earlier: &Timestamp) -> (r: i128)
        ensures
            r == elapsed_nanos(*self, *earlier),
            -20_000_000_000_000_000_000_000 < r < 20_000_000_000_000_000_000_000,
    {
        proof {
            use_type_invariant(self);
            use_type_invariant(earlier);
        }
        let own: i64 = second_of_day(self.secs);
        let other: i64 = second_of_day(earlier.secs);
        let leap: i128 = if own > other && earlier.nanos >= 1_000_000_000 {
            1
        } else if own < other && self.nanos >= 1_000_000_000 {
            -1
        } else {
            0
        };
        (self.secs as i128 - earlier.secs as i128 + leap) * 1_000_000_000 + (self.nanos as i128
            - earlier.nanos as i128)
    }

    /// Whole seconds from `earlier` to `self`; a part of a second is dropped.
    pub fn seconds_since(&self, earlier: &Timestamp) -> (r: i64)
        ensures
            r == toward_zero(elapsed_nanos(*self, *earlier)),
    {
        let nanos: i128 = self.nanos_since(earlier);
        if nanos >= 0 {
            (nanos / 1_000_000_000) as i64
        } else {
            let positive: i128 = 0 - nanos;
            0 - (positive / 1_000_000_000) as i64
        }
    }
}

/// Seconds and nanoseconds tell points in time apart.
pub proof fn lemma_same_instant(a: Timestamp, b: Timestamp)
    requires
        a.seconds() == b.seconds(),
        a.subsec_nanos() == b.subsec_nanos(),
    ensures
        a == b,
{
}

/// Whole seconds in a number of nanoseconds, rounded toward zero.
pub open spec fn toward_zero(nanos: int) -> int {
    if nanos >= 0 {
        nanos / 1_000_000_000
    } else {
        -((-nanos) / 1_000_000_000)
    }
}

/// Nanoseconds from `earlier` to `later`. A leap second is counted between two
/// times of day when it lies after the smaller one.
pub open spec fn elapsed_nanos(later: Timestamp, earlier: Timestamp) -> int {
    let own = later.seconds() as int % 86_400;
    let other = earlier.seconds() as int % 86_400;
    let leap: int = if own > other && earlier.subsec_nanos() >= 1_000_000_000 {
        1
    } else if own < other && later.subsec_nanos() >= 1_000_000_000 {
        -1
    } else {
        0
    };
    (later.seconds() - earlier.seconds() + leap) * 1_000_000_000 + (later.subsec_nanos()
        - earlier.subsec_nanos())
}

/// The second of the day that a second since 1970 falls on.
fn second_of_day(secs: i64) -> (r: i64)
    requires
        FIRST_SECOND <= secs <= LAST_SECOND,
    ensures
        r == secs as int % 86_400,
{
    proof {
        lemma_mod_multiples_vanish(96_466_451, secs as int, 86_400);
    }
    // 96_466_451 days are more than lie before 1970, so the sum is positive.
    (secs + 8_334_701_366_400) % 86_400
}

/// The second of the minute that a second since 1970 falls on.
fn second_of_minute(secs: i64) -> (r: i64)
    requires
        FIRST_SECOND <= secs <= LAST_SECOND,
    ensures
        r == secs as int % 60,
{
    proof {
        lemma_mod_multiples_vanish(138_911_689_440, secs as int, 60);
    }
    // As many minutes as there are in those days.
    (secs + 8_334_701_366_400) % 60
}

/// What `chrono::DateTime::to_rfc3339` writes for a point in time.
pub uninterp spec fn rfc3339_text(secs: i64, nanos: u32) -> Seq<char>;

/// What `chrono::DateTime::parse_from_rfc3339` makes of a text: seconds and
/// nanoseconds in UTC, or nothing where it reports an error.
pub uninterp spec fn parsed_rfc3339(text: Seq<char>) -> Option<(i64, u32)>;

/// Calls `chrono::Utc::now`. Of the result only this is claimed: it is a point in
/// time that can be held.
#[verifier::external_body]
pub(crate) fn now() -> (r: Timestamp)
    ensures
        valid_instant(r.seconds() as int, r.subsec_nanos() as int),
{
    let t = Utc::now();
    Timestamp { secs: t.timestamp(), nanos: t.timestamp_subsec_nanos() }
}

/// Calls `chrono::DateTime::<Utc>::to_rfc3339`. The text is a function of the
/// point in time.
#[verifier::external_body]
pub(crate) fn write_rfc3339(t: &Timestamp) -> (r: String)
    ensures
        r@ == rfc3339_text(t.seconds(), t.subsec_nanos()),
{
    DateTime::<Utc>::from_timestamp(t.secs, t.nanos).unwrap().to_rfc3339()
}

/// Calls `chrono::DateTime::parse_from_rfc3339`. The result is a function of the
/// text and can be held; what `to_rfc3339` writes for the years 0 to 9999 is read
/// back as the point in time it was written for.
#[verifier::external_body]
pub(crate) fn read_rfc3339(text: &str) -> (r: Option<Timestamp>)
    ensures
        (match r {
            Some(t) => Some((t.seconds(), t.subsec_nanos())),
            None => None,
        }) == parsed_rfc3339(text@),
        r is Some ==> valid_instant(r->0.seconds() as int, r->0.subsec_nanos() as int),
        forall|secs: i64, nanos: u32|
            text@ == #[trigger] rfc3339_text(secs, nanos) && -62_167_219_200 <= secs
                <= 253_402_300_799 && nanos < 1_000_000_000 ==> (r is Some && r->0.seconds()
                == secs && r->0.subsec_nanos() == nanos),
{
    let t = DateTime::parse_from_rfc3339(text).ok()?.with_timezone(&Utc);
    Some(Timestamp { secs: t.timestamp(), nanos: t.timestamp_subsec_nanos() })
}

} // verus!
