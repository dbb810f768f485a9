//! Time: the system's clock, and civil time at eight hours east of Greenwich.
use crate::text;
use chrono::Timelike;
use vstd::prelude::*;

verus! {

/// The first second that a date of the calendar in use can carry, counted from 1970.
pub const FIRST_SECOND: i64 = -8_334_601_228_800;

/// The last second that a date of the calendar in use can carry, counted from 1970.
pub const LAST_SECOND: i64 = 8_210_266_876_799;

/// A count of seconds since 1970 that a date of the calendar in use can carry.
pub open spec fn instant(t: int) -> bool {
    FIRST_SECOND <= t <= LAST_SECOND
}

/// A reading of the system's clock: a second from 1970 on that a date can carry.
pub open spec fn reading(t: int) -> bool {
    0 <= t && instant(t)
}

/// `std::time::Instant`: a reading of the monotonic clock.
#[verifier::external_type_specification]
#[verifier::external_body]
pub struct ExInstant(std::time::Instant);

/// `std::time::Instant::now` reads the monotonic clock. Nothing is known of the reading.
#[verifier::external_body]
pub(crate) fn start() -> std::time::Instant {
    std::time::Instant::now()
}

/// `std::time::Instant::elapsed` gives the time since a reading, here in milliseconds.
/// Nothing is known of it.
#[verifier::external_body]
pub(crate) fn elapsed_ms(since: &std::time::Instant) -> u64 {
    since.elapsed().as_millis() as u64
}

/// `chrono::Utc::now` reads the system's clock: seconds since 1970, and nanoseconds. The
/// reading is never before 1970 and never after the last date that a `DateTime` can carry.
#[verifier::external_body]
fn utc_now() -> (r: (i64, u32))
    ensures
        reading(r.0 as int),
{
    let now = chrono::Utc::now();
    (now.timestamp(), now.timestamp_subsec_nanos())
}

/// The present time: seconds since 1970, and nanoseconds.
pub fn now_exact() -> (r: (i64, u32))
    ensures
        reading(r.0 as int),
{
    utc_now()
}

/// The present time in seconds since 1970.
pub fn now() -> (r: i64)
    ensures
        reading(r as int),
{
    utc_now().0
}

/// The second of the local day in which a time falls.
pub open spec fn local_second(t: int) -> int {
    (t + 28800) % 86400
}

/// The local day in which a time falls, counted from the first of January 1970.
pub open spec fn local_day(t: int) -> int {
    (t + 28800) / 86400
}

/// The minute of the local day in which a time falls.
pub open spec fn local_minute(t: int) -> int {
    local_second(t) / 60
}

/// `chrono::DateTime::from_timestamp` with `FixedOffset::east_opt` of eight hours gives the hour
/// and the minute that local clocks show. It fails on times that no date carries.
#[verifier::external_body]
fn local_time(t: i64) -> (r: (u32, u32))
    requires
        instant(t as int),
    ensures
        r.0 == local_second(t as int) / 3600,
        r.1 == local_second(t as int) % 3600 / 60,
{
    let zone = chrono::FixedOffset::east_opt(8 * 3600).unwrap();
    let local = chrono::DateTime::from_timestamp(t, 0).unwrap().with_timezone(&zone);
    (local.hour(), local.minute())
}

/// The minute of the local day in which a time falls.
pub fn minute_of_day(t: i64) -> (r: u16)
    requires
        instant(t as int),
    ensures
        r == local_minute(t as int),
        r < 1440,
{
    let (h, m) = local_time(t);
    (h * 60 + m) as u16
}

/// The month, day, hour and minute that local clocks show, as `%m-%d %H:%M` writes them.
pub uninterp spec fn local_stamp(t: i64) -> Seq<char>;

/// `chrono::DateTime::format` with `%m-%d %H:%M`, eight hours east of Greenwich, writes a text
/// that the time alone decides. It fails on times that no date carries.
#[verifier::external_body]
pub(crate) fn stamp(t: i64) -> (r: String)
    requires
        instant(t as int),
    ensures
        r@ == local_stamp(t),
{
    let zone = chrono::FixedOffset::east_opt(8 * 3600).unwrap();
    let local = chrono::DateTime::from_timestamp(t, 0).unwrap().with_timezone(&zone);
    local.format("%m-%d %H:%M").to_string()
}

/// The time that an RFC 3339 text writes: seconds since 1970, and nanoseconds.
pub uninterp spec fn rfc3339(s: Seq<char>) -> Option<(i64, u32)>;

/// `chrono::DateTime::parse_from_rfc3339` reads a time, or fails, as the text alone decides.
#[verifier::external_body]
pub(crate) fn parse_rfc3339(s: &str) -> (r: Option<(i64, u32)>)
    ensures
        r == rfc3339(s@),
{
    let t = chrono::DateTime::parse_from_rfc3339(s).ok()?;
    Some((t.timestamp(), t.timestamp_subsec_nanos()))
}

/// The RFC 3339 text of a time in milliseconds since 1970, where a date carries it.
pub uninterp spec fn millis_rfc3339(ms: i64) -> Option<Seq<char>>;

/// `chrono::DateTime::from_timestamp_millis` and `to_rfc3339` write a time, or fail, as its
/// milliseconds alone decide.
#[verifier::external_body]
pub(crate) fn millis_text(ms: i64) -> (r: Option<String>)
    ensures
        text::opt_view(r) == millis_rfc3339(ms),
{
    chrono::DateTime::from_timestamp_millis(ms).map(|t| t.to_rfc3339())
}

/// Local days begin at midnight eight hours east of Greenwich: at 16:00 of the day before there.
pub proof fn local_days_begin_at_midnight(t: int)
    ensures
        local_day(t) * 86400 + local_second(t) == t + 8 * 3600,
        0 <= local_second(t) < 24 * 3600,
        0 <= local_minute(t) < 24 * 60,
        local_minute(t) * 60 <= local_second(t) < local_minute(t) * 60 + 60,
        local_second(t + 86400) == local_second(t),
        local_day(t + 86400) == local_day(t) + 1,
{
}

} // verus!
