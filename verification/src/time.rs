//! Civil timestamps.
//!
//! A [`Timestamp`] holds a calendar date and a time of day in UTC as plain
//! integer fields, so that everything the store does with a timestamp can be
//! reasoned about directly.  Only reading the current time goes through the
//! `chrono` crate, behind a single trusted wrapper.

use vstd::prelude::*;
use chrono::Datelike;
use chrono::Timelike;

verus! {

/// A calendar date and time of day in UTC.
///
/// Fields are plain integers; `wf` says that they name a real instant
/// (month and day in range for the year, and so on).  The year is kept
/// within four decimal digits so that the wire form is always a four-digit
/// year.
#[derive(Clone, Copy, PartialEq, Eq, Structural, Hash, PartialOrd, Ord, Debug)]
pub struct Timestamp {
    pub year: u32,
    pub month: u32,
    pub day: u32,
    pub hour: u32,
    pub minute: u32,
    pub second: u32,
    pub nanos: u32,
}

/// Whether `y` is a leap year in the proleptic Gregorian calendar.
pub open spec fn spec_is_leap_year(y: u32) -> bool {
    y % 4 == 0 && (y % 100 != 0 || y % 400 == 0)
}

/// The number of days of month `m` in year `y` (for months 1 to 12).
pub open spec fn spec_days_in_month(y: u32, m: u32) -> u32 {
    if m == 2 {
        if spec_is_leap_year(y) {
            29
        } else {
            28
        }
    } else if m == 4 || m == 6 || m == 9 || m == 11 {
        30
    } else {
        31
    }
}

pub fn is_leap_year(y: u32) -> (r: bool)
    ensures
        r == spec_is_leap_year(y),
{
    y % 4 == 0 && (y % 100 != 0 || y % 400 == 0)
}

pub fn days_in_month(y: u32, m: u32) -> (r: u32)
    ensures
        r == spec_days_in_month(y, m),
{
    if m == 2 {
        if is_leap_year(y) {
            29
        } else {
            28
        }
    } else if m == 4 || m == 6 || m == 9 || m == 11 {
        30
    } else {
        31
    }
}

impl Timestamp {
    /// The fields name a real instant with a four-digit year.
    pub open spec fn wf(self) -> bool {
        self.year <= 9999 && 1 <= self.month && self.month <= 12 && 1 <= self.day && self.day
            <= spec_days_in_month(self.year, self.month) && self.hour <= 23 && self.minute <= 59
            && self.second <= 59 && self.nanos <= 999_999_999
    }

    /// Builds a timestamp from its fields, rejecting any combination that
    /// does not name a real instant.
    pub fn new(year: u32, month: u32, day: u32, hour: u32, minute: u32, second: u32, nanos: u32) -> (r:
        Option<Timestamp>)
        ensures
            r is Some <==> (year <= 9999 && 1 <= month && month <= 12 && 1 <= day && day
                <= spec_days_in_month(year, month) && hour <= 23 && minute <= 59 && second <= 59
                && nanos <= 999_999_999),
            r matches Some(t) ==> t == (Timestamp { year, month, day, hour, minute, second, nanos })
                && t.wf(),
    {
        if year <= 9999 && 1 <= month && month <= 12 && 1 <= day && day <= days_in_month(
            year,
            month,
        ) && hour <= 23 && minute <= 59 && second <= 59 && nanos <= 999_999_999 {
            Some(Timestamp { year, month, day, hour, minute, second, nanos })
        } else {
            None
        }
    }

    /// Midnight at the start of 1970, the fallback instant.
    pub fn epoch() -> (r: Timestamp)
        ensures
            r == (Timestamp {
                year: 1970u32,
                month: 1u32,
                day: 1u32,
                hour: 0u32,
                minute: 0u32,
                second: 0u32,
                nanos: 0u32,
            }),
            r.wf(),
    {
        Timestamp { year: 1970, month: 1, day: 1, hour: 0, minute: 0, second: 0, nanos: 0 }
    }

    /// The current time in UTC.
    ///
    /// Nanoseconds reported during a leap second are clamped into the last
    /// ordinary nanosecond, so the result is always well formed.
    pub fn now() -> (t: Timestamp)
        ensures
            t.wf(),
    {
        let p = clock_now_parts();
        if 0 <= p.year && p.year <= 9999 {
            let nanos: u32 = if p.nanos <= 999_999_999 {
                p.nanos
            } else {
                999_999_999
            };
            match Timestamp::new(p.year as u32, p.month, p.day, p.hour, p.minute, p.second, nanos) {
                Some(t) => t,
                None => Timestamp::epoch(),
            }
        } else {
            Timestamp::epoch()
        }
    }
}

/// The civil fields of an instant, as the clock reports them.
pub struct ClockParts {
    pub year: i32,
    pub month: u32,
    pub day: u32,
    pub hour: u32,
    pub minute: u32,
    pub second: u32,
    pub nanos: u32,
}

/// Relies on `chrono::Utc::now` for the current instant, read out through the
/// `Datelike`/`Timelike` accessors (`year`, `month`, `day`, `hour`, `minute`,
/// `second`, `nanosecond`).  chrono documents exactly the field ranges stated
/// here; nanoseconds from 1_000_000_000 to 1_999_999_999 represent a leap
/// second.
#[verifier::external_body]
fn clock_now_parts() -> (r: ClockParts)
    ensures
        1 <= r.month && r.month <= 12,
        1 <= r.day && r.day <= 31,
        r.hour <= 23,
        r.minute <= 59,
        r.second <= 59,
        r.nanos <= 1_999_999_999,
{
    let t = chrono::Utc::now();
    ClockParts {
        year: t.year(),
        month: t.month(),
        day: t.day(),
        hour: t.hour(),
        minute: t.minute(),
        second: t.second(),
        nanos: t.nanosecond(),
    }
}

} // verus!
