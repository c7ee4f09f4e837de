//! Points in time, as the library writes them down.

use vstd::prelude::*;

verus! {

#[verifier::external_type_specification]
#[verifier::external_body]
pub struct ExOffsetDateTime(time::OffsetDateTime);

/// The nanoseconds from the Unix epoch to `t`.
pub uninterp spec fn unix_nanos(t: time::OffsetDateTime) -> i128;

/// `t` in the RFC 3339 format; `None` if it cannot be written so.
pub uninterp spec fn rfc3339(t: time::OffsetDateTime) -> Option<Seq<char>>;

/// Calls `time::OffsetDateTime::now_utc`. Nothing is claimed of the time it reads.
#[verifier::external_body]
fn now_utc() -> time::OffsetDateTime {
    time::OffsetDateTime::now_utc()
}

/// Calls `time::OffsetDateTime::unix_timestamp_nanos`.
#[verifier::external_body]
fn nanos_of(t: &time::OffsetDateTime) -> (n: i128)
    ensures
        n == unix_nanos(*t),
{
    t.unix_timestamp_nanos()
}

/// Calls `time::OffsetDateTime::format` with the well-known RFC 3339 format.
#[verifier::external_body]
fn format_rfc3339(t: &time::OffsetDateTime) -> (s: Option<String>)
    ensures
        s.deep_view() == rfc3339(*t),
{
    t.format(&time::format_description::well_known::Rfc3339).ok()
}

/// Whole milliseconds in `nanos`, rounded towards zero.
pub open spec fn whole_millis(nanos: int) -> int {
    if nanos >= 0 {
        nanos / 1_000_000
    } else {
        -((-nanos) / 1_000_000)
    }
}

/// Milliseconds as the tablet counts them; `i64::MAX` stands for what does not fit.
pub open spec fn clamped_millis(nanos: int) -> i64 {
    if i64::MIN <= whole_millis(nanos) <= i64::MAX {
        whole_millis(nanos) as i64
    } else {
        i64::MAX
    }
}

/// Converts nanoseconds to milliseconds, with `i64::MAX` for what does not fit.
pub fn millis_of_nanos(nanos: i128) -> (ms: i64)
    ensures
        ms == clamped_millis(nanos as int),
{
    if nanos >= 9_223_372_036_854_775_808_000_000 || nanos <= -9_223_372_036_854_775_809_000_000 {
        i64::MAX
    } else if nanos >= 0 {
        (nanos / 1_000_000) as i64
    } else {
        let q: i128 = (0 - nanos) / 1_000_000;
        (0 - q) as i64
    }
}

/// A point in time: as text, and in milliseconds since the Unix epoch.
#[derive(Debug)]
pub struct Stamp {
    /// The time in the RFC 3339 format.
    pub at: String,
    /// The time in milliseconds since the Unix epoch.
    pub millis: i64,
}

/// Whether a stamp records the time `t`. A time that RFC 3339 cannot express is
/// recorded with an empty text.
pub open spec fn stamps(s: Stamp, t: time::OffsetDateTime) -> bool {
    &&& s.at@ == (match rfc3339(t) {
        Some(text) => text,
        None => Seq::empty(),
    })
    &&& s.millis == clamped_millis(unix_nanos(t) as int)
}

impl Stamp {
    /// Records the time `t`.
    pub fn of(t: &time::OffsetDateTime) -> (s: Self)
        ensures
            stamps(s, *t),
    {
        let at = match format_rfc3339(t) {
            Some(text) => text,
            None => String::new(),
        };
        Stamp { at, millis: millis_of_nanos(nanos_of(t)) }
    }

    /// Records the present time.
    pub fn now() -> (s: Self)
        ensures
            exists|t: time::OffsetDateTime| stamps(s, t),
    {
        let t = now_utc();
        Self::of(&t)
    }
}

/// Whole milliseconds are those that have passed, counted from the epoch in either direction; and
/// as long as they can be counted, they are counted exactly.
pub proof fn milliseconds_are_whole(nanos: int)
    ensures
        nanos >= 0 ==> whole_millis(nanos) * 1_000_000 <= nanos < whole_millis(nanos) * 1_000_000
            + 1_000_000,
        whole_millis(-nanos) == -whole_millis(nanos),
        i64::MIN <= whole_millis(nanos) <= i64::MAX ==> clamped_millis(nanos) == whole_millis(
            nanos,
        ),
        !(i64::MIN <= whole_millis(nanos) <= i64::MAX) ==> clamped_millis(nanos) == i64::MAX,
{
}

} // verus!
