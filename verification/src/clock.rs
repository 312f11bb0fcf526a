//! Wall-clock and timestamp-range facts taken from chrono.

use vstd::prelude::*;

verus! {

/// The seconds chrono can represent as a UTC date and time:
/// `DateTime::<Utc>::MIN_UTC.timestamp()` up to
/// `DateTime::<Utc>::MAX_UTC.timestamp()`.
pub open spec fn timestamp_in_range(secs: int) -> bool {
    -8_334_601_228_800 <= secs <= 8_210_266_876_799
}

/// Relies on chrono::DateTime::<Utc>::from_timestamp: it returns `Some`
/// exactly for seconds within chrono's representable range, and
/// `DateTime::timestamp` round-trips the seconds handed in.
#[verifier::external_body]
pub fn checked_timestamp(secs: i64) -> (r: Option<i64>)
    ensures
        r == if timestamp_in_range(secs as int) {
            Some(secs)
        } else {
            Option::<i64>::None
        },
{
    chrono::DateTime::<chrono::Utc>::from_timestamp(secs, 0).map(|dt| dt.timestamp())
}

/// Relies on chrono's conversion from the system clock, which carries a
/// reading from before the Unix epoch as negated seconds rather than
/// refusing it.  Nothing is promised of the clock beyond its reading
/// being a representable timestamp.
#[verifier::external_body]
pub fn now_unix_seconds() -> (r: i64)
    ensures
        timestamp_in_range(r as int),
{
    chrono::DateTime::<chrono::Utc>::from(std::time::SystemTime::now()).timestamp()
}

} // verus!
