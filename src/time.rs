//! Calendar date and time of day, as plain numbers, with the proleptic
//! Gregorian calendar behind it.

use vstd::prelude::*;

verus! {

/// Whether `y` is a leap year of the proleptic Gregorian calendar.
pub open spec fn is_leap(y: int) -> bool {
    (y % 4 == 0 && y % 100 != 0) || y % 400 == 0
}

/// Number of days in month `m` (1 to 12) of year `y`.
pub open spec fn days_in_month(y: int, m: int) -> int {
    if m == 2 {
        if is_leap(y) {
            29
        } else {
            28
        }
    } else if m == 4 || m == 6 || m == 9 || m == 11 {
        30
    } else {
        31
    }
}

/// A calendar date that exists, with a year inside chrono's range.
pub open spec fn valid_ymd(y: int, m: int, d: int) -> bool {
    &&& -262143 <= y <= 262142
    &&& 1 <= m <= 12
    &&& 1 <= d <= days_in_month(y, m)
}

/// Leap years from year 1 up to `y` (a count that goes negative below it).
pub open spec fn leaps_through(y: int) -> int {
    y / 4 - y / 100 + y / 400
}

/// Days from 1970-01-01 to January 1 of year `y`.
pub open spec fn days_before_year(y: int) -> int {
    365 * (y - 1970) + leaps_through(y - 1) - leaps_through(1969)
}

/// Days from January 1 to the first of month `m` in year `y`.
pub open spec fn days_before_month(y: int, m: int) -> int
    decreases m,
{
    if m <= 1 {
        0
    } else {
        days_before_month(y, m - 1) + days_in_month(y, m - 1)
    }
}

/// Days from 1970-01-01 to the given date.
pub open spec fn days_from_epoch(y: int, m: int, d: int) -> int {
    days_before_year(y) + days_before_month(y, m) + d - 1
}

/// A date and a time of day, with no time zone.
#[derive(Clone, Copy, Debug, PartialEq, Eq, Structural)]
pub struct DateTime {
    pub year: i32,
    pub month: u32,
    pub day: u32,
    pub hour: u32,
    pub minute: u32,
    pub second: u32,
}

/// Relies on chrono's `NaiveDate::from_ymd_opt`: it gives a date exactly
/// when the month and day exist in that year and the year is in its range.
#[verifier::external_body]
fn ymd_is_valid(year: i32, month: u32, day: u32) -> (r: bool)
    ensures
        r == valid_ymd(year as int, month as int, day as int),
{
    chrono::NaiveDate::from_ymd_opt(year, month, day).is_some()
}

/// Relies on chrono's `NaiveDate::from_ymd_opt`, `NaiveDate::and_hms_opt`
/// and `DateTime::timestamp`: non-leap seconds since 1970-01-01 00:00:00.
#[verifier::external_body]
fn epoch_seconds(t: &DateTime) -> (r: i64)
    requires
        t.wf(),
    ensures
        r as int == t.seconds_since_epoch(),
{
    chrono::NaiveDate::from_ymd_opt(t.year, t.month, t.day)
        .and_then(|d| d.and_hms_opt(t.hour, t.minute, t.second))
        .map(|dt| dt.and_utc().timestamp())
        .unwrap_or_default()
}

impl DateTime {
    /// The fields name a real date and a time of day.
    pub open spec fn wf(&self) -> bool {
        &&& valid_ymd(self.year as int, self.month as int, self.day as int)
        &&& self.hour < 24
        &&& self.minute < 60
        &&& self.second < 60
    }

    /// Seconds since 1970-01-01 00:00:00.
    pub open spec fn seconds_since_epoch(&self) -> int {
        days_from_epoch(self.year as int, self.month as int, self.day as int) * 86400
            + self.hour * 3600 + self.minute * 60 + self.second
    }

    /// The instant comes strictly after `other`'s.
    pub open spec fn after(&self, other: &DateTime) -> bool {
        if self.year != other.year {
            self.year > other.year
        } else if self.month != other.month {
            self.month > other.month
        } else if self.day != other.day {
            self.day > other.day
        } else if self.hour != other.hour {
            self.hour > other.hour
        } else if self.minute != other.minute {
            self.minute > other.minute
        } else {
            self.second > other.second
        }
    }

    /// The date and time given, or `None` where they name no real instant.
    pub fn new(year: i32, month: u32, day: u32, hour: u32, minute: u32, second: u32) -> (r:
        Option<DateTime>)
        ensures
            r is Some <==> (valid_ymd(year as int, month as int, day as int) && hour < 24 && minute
                < 60 && second < 60),
            r matches Some(t) ==> (t == DateTime { year, month, day, hour, minute, second }),
    {
        if hour < 24 && minute < 60 && second < 60 && ymd_is_valid(year, month, day) {
            Some(DateTime { year, month, day, hour, minute, second })
        } else {
            None
        }
    }

    /// Whether this instant comes strictly after `other`.
    pub fn is_after(&self, other: &DateTime) -> (r: bool)
        ensures
            r == self.after(other),
    {
        if self.year != other.year {
            self.year > other.year
        } else if self.month != other.month {
            self.month > other.month
        } else if self.day != other.day {
            self.day > other.day
        } else if self.hour != other.hour {
            self.hour > other.hour
        } else if self.minute != other.minute {
            self.minute > other.minute
        } else {
            self.second > other.second
        }
    }

    /// Seconds since 1970-01-01 00:00:00.
    pub fn timestamp(&self) -> (r: i64)
        requires
            self.wf(),
        ensures
            r as int == self.seconds_since_epoch(),
    {
        epoch_seconds(self)
    }
}

} // verus!
