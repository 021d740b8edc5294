//! Readings of the local wall clock, taken on trust from chrono.
//!
//! Scheduling itself works on plain timestamps; these are the only places
//! where the crate asks what time it is.  chrono supports dates within about
//! 262000 years of the epoch, so every reading stays well inside
//! [`CLOCK_BOUND`] seconds of it.

use vstd::prelude::*;

use chrono::Timelike;

verus! {

/// Every clock reading lies within this many seconds of the epoch.
pub const CLOCK_BOUND: i64 = 10_000_000_000_000;

/// Relies on `chrono::Local::now` and `DateTime::timestamp`: the current
/// moment as whole seconds since the epoch, bounded by chrono's date range.
#[verifier::external_body]
pub(crate) fn now_timestamp() -> (r: i64)
    ensures
        -CLOCK_BOUND <= r <= CLOCK_BOUND,
{
    chrono::Local::now().timestamp()
}

/// Relies on `chrono::Timelike::with_hour`: the current moment moved to hour
/// zero of its day, bounded by chrono's date range; where the local time line
/// skips that instant, the plain reading stands in.
#[verifier::external_body]
pub(crate) fn today_hour_zero_timestamp() -> (r: i64)
    ensures
        -CLOCK_BOUND <= r <= CLOCK_BOUND,
{
    let now = chrono::Local::now();
    match now.with_hour(0) {
        Some(start) => start.timestamp(),
        None => now.timestamp(),
    }
}

/// Relies on `chrono::NaiveDate::succ_opt` and
/// `TimeZone::from_local_datetime`: the first instant of the day after the
/// current one, bounded by chrono's date range; a timestamp `t` falls on
/// today's date or earlier exactly when `t` is below this reading.  Where the
/// calendar or the local time line gives no such instant, the plain reading
/// stands in.
#[verifier::external_body]
pub(crate) fn tomorrow_start_timestamp() -> (r: i64)
    ensures
        -CLOCK_BOUND <= r <= CLOCK_BOUND,
{
    let now = chrono::Local::now();
    let start = now
        .date_naive()
        .succ_opt()
        .and_then(|day| day.and_hms_opt(0, 0, 0))
        .and_then(|midnight| chrono::TimeZone::from_local_datetime(&chrono::Local, &midnight).earliest());
    match start {
        Some(t) => t.timestamp(),
        None => now.timestamp(),
    }
}

} // verus!
