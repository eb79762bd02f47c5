//! UTC instants and the fixed Helsinki reference zone.
//!
//! An instant is carried as `i64` epoch seconds, always UTC: no component
//! after normalization reasons about local time. The two places where the
//! reference zone matters — the calendar day a reading belongs to, and the
//! resolution of a local wall-clock time into UTC — go through chrono-tz
//! behind trusted wrappers.

use vstd::prelude::*;
use chrono::TimeZone;
use crate::record::TimeResolution;

verus! {

/// Inclusive bound on supported instants, about 9500 years either side of
/// the epoch; keeps all hour arithmetic far from `i64` overflow.
pub const MAX_INSTANT: i64 = 300_000_000_000;

pub const SECONDS_PER_HOUR: i64 = 3600;

pub open spec fn instant_in_range(t: int) -> bool {
    -MAX_INSTANT <= t <= MAX_INSTANT
}

/// The UTC start of the clock hour containing `t` (Euclidean flooring).
pub open spec fn hour_floor(t: int) -> int {
    t - t % (SECONDS_PER_HOUR as int)
}

/// The hour whose spot price applies to a record starting at `t`: a one-hour
/// record is billed at the preceding clock hour's rate; a fifteen-minute
/// record starting exactly on a clock-hour boundary likewise, while one
/// inside an hour shares that hour's own rate.
pub open spec fn effective_hour_spec(resolution: TimeResolution, t: int) -> int {
    match resolution {
        TimeResolution::PT1H => t - SECONDS_PER_HOUR,
        TimeResolution::PT15M => if t % (SECONDS_PER_HOUR as int) == 0 {
            t - SECONDS_PER_HOUR
        } else {
            hour_floor(t)
        },
    }
}

/// Euclidean remainder of an instant by the hour length.
fn hour_rem(t: i64) -> (r: i64)
    requires
        instant_in_range(t as int),
    ensures
        r == t as int % (SECONDS_PER_HOUR as int),
{
    if t >= 0 {
        t % 3600
    } else {
        let neg: i64 = -t;
        let m: i64 = neg % 3600;
        if m == 0 {
            proof {
                vstd::arithmetic::div_mod::lemma_fundamental_div_mod(neg as int, 3600);
                vstd::arithmetic::div_mod::lemma_fundamental_div_mod_converse(
                    t as int,
                    3600,
                    -(neg as int / 3600),
                    0,
                );
            }
            0
        } else {
            proof {
                vstd::arithmetic::div_mod::lemma_fundamental_div_mod(neg as int, 3600);
                vstd::arithmetic::div_mod::lemma_fundamental_div_mod_converse(
                    t as int,
                    3600,
                    -(neg as int / 3600) - 1,
                    3600 - m as int,
                );
            }
            3600 - m
        }
    }
}

/// Executable form of [`effective_hour_spec`].
pub fn effective_hour(resolution: TimeResolution, t: i64) -> (r: i64)
    requires
        instant_in_range(t as int),
    ensures
        r == effective_hour_spec(resolution, t as int),
{
    match resolution {
        TimeResolution::PT1H => t - 3600,
        TimeResolution::PT15M => {
            let m = hour_rem(t);
            if m == 0 {
                t - 3600
            } else {
                t - m
            }
        },
    }
}

/// How the Helsinki zone maps one local civil time to UTC instants.
#[derive(Debug, Clone, Copy, PartialEq, Eq, Structural)]
pub enum LocalResolution {
    /// The civil time does not exist: bad calendar date or daylight-saving
    /// gap.
    Invalid,
    /// Exactly one UTC instant (epoch seconds).
    Single(i64),
    /// A daylight-saving fold: the earlier and the later UTC instant.
    Ambiguous(i64, i64),
}

/// Calendar day (days from the Common Era) of an instant under Europe/Helsinki.
pub uninterp spec fn helsinki_day_of(t: int) -> int;

/// Mapping of a local civil time (year, month, day, hour, minute) under
/// Europe/Helsinki to UTC instants.
pub uninterp spec fn helsinki_resolution_of(y: int, mo: int, d: int, h: int, mi: int) -> LocalResolution;

/// Relies on chrono's `DateTime::from_timestamp` and chrono-tz's
/// Europe/Helsinki zone: the calendar day on which an instant falls under
/// the fixed reference zone, as days from the Common Era. The zone table is
/// compiled into chrono-tz, so the day is a function of the instant alone.
/// The range bound keeps the instant inside chrono's supported dates.
#[verifier::external_body]
pub(crate) fn helsinki_day(t: i64) -> (d: i64)
    requires
        instant_in_range(t as int),
    ensures
        d == helsinki_day_of(t as int),
{
    let utc = chrono::DateTime::<chrono::Utc>::from_timestamp(t, 0).unwrap();
    let local = utc.with_timezone(&chrono_tz::Europe::Helsinki);
    chrono::Datelike::num_days_from_ce(&local.date_naive()) as i64
}

/// Relies on chrono-tz's `TimeZone::with_ymd_and_hms` for Europe/Helsinki:
/// how the zone maps a local wall-clock time to UTC instants in epoch
/// seconds — no instant for a nonexistent civil time or a daylight-saving
/// gap, one for an unambiguous time, the earlier and the later one for a
/// time inside a daylight-saving fold. The zone table is compiled into
/// chrono-tz, so the outcome is a function of the civil time alone.
#[verifier::external_body]
pub(crate) fn resolve_helsinki_local(y: i32, mo: u32, d: u32, h: u32, mi: u32) -> (r: LocalResolution)
    ensures
        r == helsinki_resolution_of(y as int, mo as int, d as int, h as int, mi as int),
{
    match chrono_tz::Europe::Helsinki.with_ymd_and_hms(y, mo, d, h, mi, 0) {
        chrono::LocalResult::None => LocalResolution::Invalid,
        chrono::LocalResult::Single(a) => LocalResolution::Single(a.timestamp()),
        chrono::LocalResult::Ambiguous(a, b) => LocalResolution::Ambiguous(
            a.timestamp(),
            b.timestamp(),
        ),
    }
}

} // verus!
