//! Civil (proleptic Gregorian) date-time values with a fixed UTC offset.
//!
//! A `CivilDateTime` holds the calendar fields exactly as they appear in an
//! encoded journal line: year, month, day, hour, minute, second, and the
//! offset from UTC in seconds.  All calendar arithmetic (day numbering,
//! Unix timestamps, weekdays) is defined here from first principles.
use vstd::prelude::*;

verus! {

/// Leap years of the proleptic Gregorian calendar (astronomical numbering,
/// so year 0 is a leap year).
pub open spec fn is_leap_year(y: int) -> bool {
    y % 4 == 0 && (y % 100 != 0 || y % 400 == 0)
}

pub open spec fn days_in_month(y: int, m: int) -> int {
    if m == 2 {
        if is_leap_year(y) {
            29
        } else {
            28
        }
    } else if m == 4 || m == 6 || m == 9 || m == 11 {
        30
    } else {
        31
    }
}

pub open spec fn days_in_year(y: int) -> int {
    if is_leap_year(y) {
        366
    } else {
        365
    }
}

/// Days in all years before `y`, counted from 0000-01-01 (negative for
/// years before year 0).
pub open spec fn days_before_year(y: int) -> int
    decreases (if y >= 0 { y } else { -y }),
{
    if y == 0 {
        0
    } else if y > 0 {
        days_before_year(y - 1) + days_in_year(y - 1)
    } else {
        days_before_year(y + 1) - days_in_year(y)
    }
}

/// Days in the months of year `y` that precede month `m`.
pub open spec fn days_before_month(y: int, m: int) -> int
    decreases m,
{
    if m <= 1 {
        0
    } else {
        days_before_month(y, m - 1) + days_in_month(y, m - 1)
    }
}

/// The day number of the civil date `y-m-d`, with day 0 = 0000-01-01.
pub open spec fn day_number(y: int, m: int, d: int) -> int {
    days_before_year(y) + days_before_month(y, m) + (d - 1)
}

/// Day number of the Unix epoch, 1970-01-01.
pub const EPOCH_DAY_NUMBER: i64 = 719528;

/// Seconds per calendar day.
pub const DAY_SECONDS: i64 = 86400;

/// A calendar date and time of day together with a fixed UTC offset.
#[derive(Clone, Copy, Debug, PartialEq, Eq, Structural)]
pub struct CivilDateTime {
    pub year: u16,
    pub month: u8,
    pub day: u8,
    pub hour: u8,
    pub minute: u8,
    pub second: u8,
    /// Offset of local time ahead of UTC, in seconds (whole minutes only).
    pub offset_seconds: i32,
}

impl CivilDateTime {
    /// The fields form a real calendar date and time, with a four-digit year
    /// and an offset expressible as `±HHMM`.
    pub open spec fn valid(self) -> bool {
        &&& self.year <= 9999
        &&& 1 <= self.month <= 12
        &&& 1 <= self.day
        &&& self.day as int <= days_in_month(self.year as int, self.month as int)
        &&& self.hour <= 23
        &&& self.minute <= 59
        &&& self.second <= 59
        &&& -86340 <= self.offset_seconds <= 86340
        &&& self.offset_seconds % 60 == 0
    }

    /// Day number of the local calendar date (day 0 = 0000-01-01).
    pub open spec fn spec_day_number(self) -> int {
        day_number(self.year as int, self.month as int, self.day as int)
    }

    /// Seconds since local midnight.
    pub open spec fn spec_seconds_of_day(self) -> int {
        self.hour as int * 3600 + self.minute as int * 60 + self.second as int
    }

    /// Seconds since 1970-01-01 00:00:00 UTC of the instant denoted.
    pub open spec fn spec_timestamp(self) -> int {
        (self.spec_day_number() - EPOCH_DAY_NUMBER as int) * 86400 + self.spec_seconds_of_day()
            - self.offset_seconds as int
    }

    /// Construct a value after checking every field range.
    pub fn new(
        year: u16,
        month: u8,
        day: u8,
        hour: u8,
        minute: u8,
        second: u8,
        offset_seconds: i32,
    ) -> (r: Option<CivilDateTime>)
        ensures
            ({
                let c = CivilDateTime { year, month, day, hour, minute, second, offset_seconds };
                if c.valid() {
                    r == Some(c)
                } else {
                    r is None
                }
            }),
    {
        let c = CivilDateTime { year, month, day, hour, minute, second, offset_seconds };
        if year <= 9999 && 1 <= month && month <= 12 && 1 <= day && hour <= 23 && minute <= 59
            && second <= 59 && -86340 <= offset_seconds && offset_seconds <= 86340
            && offset_seconds % 60 == 0 && day as i64 <= days_in_month_exec(year, month) {
            Some(c)
        } else {
            None
        }
    }

    /// Day number of the local calendar date, as an executable value.
    pub fn day_number(&self) -> (r: i64)
        requires
            self.valid(),
        ensures
            r == self.spec_day_number(),
            0 <= r <= 3_700_000,
    {
        proof {
            lemma_days_before_year_bounds(self.year as int);
            lemma_days_before_month_bounds(self.year as int, self.month as int);
        }
        let mut acc: i64 = 0;
        let mut y: u16 = 0;
        while y < self.year
            invariant
                y <= self.year <= 9999,
                acc == days_before_year(y as int),
                0 <= acc <= 366 * y,
            decreases self.year - y,
        {
            proof {
                lemma_days_before_year_bounds((y + 1) as int);
            }
            acc = acc + days_in_year_exec(y);
            y = y + 1;
        }
        let mut m: u8 = 1;
        while m < self.month
            invariant
                1 <= m <= self.month <= 12,
                self.valid(),
                acc == days_before_year(self.year as int) + days_before_month(
                    self.year as int,
                    m as int,
                ),
                0 <= acc <= 3_700_000,
            decreases self.month - m,
        {
            proof {
                lemma_days_before_year_bounds(self.year as int);
                lemma_days_before_month_bounds(self.year as int, (m + 1) as int);
            }
            acc = acc + days_in_month_exec(self.year, m);
            m = m + 1;
        }
        acc + (self.day as i64 - 1)
    }

    /// Unix timestamp of the instant denoted, as an executable value.
    pub fn timestamp(&self) -> (r: i64)
        requires
            self.valid(),
        ensures
            r == self.spec_timestamp(),
            -100_000_000_000 <= r <= 300_000_000_000,
    {
        let dn = self.day_number();
        (dn - EPOCH_DAY_NUMBER) * DAY_SECONDS + (self.hour as i64 * 3600 + self.minute as i64 * 60
            + self.second as i64) - self.offset_seconds as i64
    }
}

pub fn is_leap_year_exec(y: u16) -> (r: bool)
    ensures
        r == is_leap_year(y as int),
{
    y % 4 == 0 && (y % 100 != 0 || y % 400 == 0)
}

pub fn days_in_year_exec(y: u16) -> (r: i64)
    ensures
        r == days_in_year(y as int),
{
    if is_leap_year_exec(y) {
        366
    } else {
        365
    }
}

pub fn days_in_month_exec(y: u16, m: u8) -> (r: i64)
    ensures
        r == days_in_month(y as int, m as int),
{
    if m == 2 {
        if is_leap_year_exec(y) {
            29
        } else {
            28
        }
    } else if m == 4 || m == 6 || m == 9 || m == 11 {
        30
    } else {
        31
    }
}

/// For non-negative years the cumulative day count grows between 365 and 366
/// days per year.
pub proof fn lemma_days_before_year_bounds(y: int)
    requires
        0 <= y,
    ensures
        365 * y <= days_before_year(y) <= 366 * y,
    decreases y,
{
    if y > 0 {
        lemma_days_before_year_bounds(y - 1);
    }
}

/// Within a year, at most 31 days accrue per month preceding month `m`.
pub proof fn lemma_days_before_month_bounds(y: int, m: int)
    requires
        1 <= m <= 13,
    ensures
        0 <= days_before_month(y, m) <= 31 * (m - 1),
    decreases m,
{
    if m > 1 {
        lemma_days_before_month_bounds(y, m - 1);
    }
}


/// Cumulative days before year `y`, for years a month-by-month walk can
/// reach: every year of the calendar range plus the December preceding it.
pub fn days_before_year_wide_exec(y: i64) -> (r: i64)
    requires
        -1 <= y <= 9999,
    ensures
        r == days_before_year(y as int),
        -365 <= r <= 3_700_000,
{
    if y < 0 {
        proof {
            assert(days_before_year(0) == 0);
            assert(!is_leap_year(-1));
            assert(days_before_year(-1) == -365);
        }
        return -365;
    }
    proof {
        lemma_days_before_year_bounds(y as int);
    }
    let mut acc: i64 = 0;
    let mut yy: i64 = 0;
    while yy < y
        invariant
            0 <= yy <= y <= 9999,
            acc == days_before_year(yy as int),
            0 <= acc <= 366 * yy,
        decreases y - yy,
    {
        proof {
            lemma_days_before_year_bounds((yy + 1) as int);
        }
        acc = acc + days_in_year_exec(yy as u16);
        yy = yy + 1;
    }
    acc
}

/// Month length for the same widened year range.
pub fn days_in_month_wide_exec(y: i64, m: u8) -> (r: i64)
    requires
        -1 <= y <= 9999,
    ensures
        r == days_in_month(y as int, m as int),
        28 <= r <= 31,
{
    if m == 2 {
        let leap = if y >= 0 {
            is_leap_year_exec(y as u16)
        } else {
            proof {
                assert(!is_leap_year(-1));
            }
            false
        };
        if leap {
            29
        } else {
            28
        }
    } else if m == 4 || m == 6 || m == 9 || m == 11 {
        30
    } else {
        31
    }
}

/// Days of year `y` that precede month `m`, for the widened year range.
pub fn days_before_month_wide_exec(y: i64, m: u8) -> (r: i64)
    requires
        -1 <= y <= 9999,
        1 <= m <= 12,
    ensures
        r == days_before_month(y as int, m as int),
        0 <= r <= 372,
{
    proof {
        lemma_days_before_month_bounds(y as int, m as int);
    }
    let mut acc: i64 = 0;
    let mut mm: u8 = 1;
    while mm < m
        invariant
            1 <= mm <= m <= 12,
            -1 <= y <= 9999,
            acc == days_before_month(y as int, mm as int),
            0 <= acc <= 372,
        decreases m - mm,
    {
        proof {
            lemma_days_before_month_bounds(y as int, (mm + 1) as int);
        }
        acc = acc + days_in_month_wide_exec(y, mm);
        mm = mm + 1;
    }
    acc
}

} // verus!
