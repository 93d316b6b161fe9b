use vstd::prelude::*;

verus! {

/// A calendar date in the proleptic Gregorian calendar.
///
/// `Date` is the identity of a `OneDaysWork` record and the input of the
/// required-hours computation. Only dates accepted by `valid()` (years 1
/// through 9999, real month/day combinations) are used by the library.
#[derive(Clone, Copy, PartialEq, Eq, Structural, Debug)]
pub struct Date {
    pub year: i64,
    pub month: i64,
    pub day: i64,
}

/// A year has 366 days when it is divisible by 4 but not by 100, or by 400.
pub open spec fn is_leap_year(y: int) -> bool {
    (y % 4 == 0 && y % 100 != 0) || y % 400 == 0
}

/// Length of a month in the Gregorian calendar.
pub open spec fn spec_days_in_month(y: int, m: int) -> int {
    if m == 2 {
        if is_leap_year(y) {
            29
        } else {
            28
        }
    } else if m == 4 || m == 6 || m == 9 || m == 11 {
        30
    } else {
        31
    }
}

impl Date {
    pub open spec fn valid(self) -> bool {
        &&& 1 <= self.year <= 9999
        &&& 1 <= self.month <= 12
        &&& 1 <= self.day <= spec_days_in_month(self.year as int, self.month as int)
    }

    /// The date's serial day index: consecutive dates map to consecutive
    /// integers, so differences of `day_number` count elapsed days. The
    /// formula is the standard civil-calendar day count with day 0 at
    /// March 1 of year 0; for every valid date the index is non-negative.
    pub open spec fn day_number(self) -> int {
        let y: int = if self.month <= 2 {
            self.year - 1
        } else {
            self.year as int
        };
        let era: int = y / 400;
        let yoe: int = y - era * 400;
        let mp: int = if self.month > 2 {
            self.month - 3
        } else {
            self.month + 9
        };
        let doy: int = (153 * mp + 2) / 5 + self.day - 1;
        let doe: int = yoe * 365 + yoe / 4 - yoe / 100 + doy;
        era * 146097 + doe
    }
}

/// Day of the week of a serial day index: 0 is Monday through 6 is Sunday.
pub open spec fn weekday_of(n: int) -> int {
    (n + 2) % 7
}

/// A workday is a Monday through Friday.
pub open spec fn is_workday(n: int) -> bool {
    weekday_of(n) < 5
}

/// Upper bound on the day index of any valid date (year 9999 stays below it).
pub const DAY_NUMBER_LIMIT: u64 = 4_000_000;

pub fn days_in_month(year: i64, month: i64) -> (r: i64)
    requires
        1 <= year,
        1 <= month <= 12,
    ensures
        r == spec_days_in_month(year as int, month as int),
{
    if month == 2 {
        if (year % 4 == 0 && year % 100 != 0) || year % 400 == 0 {
            29
        } else {
            28
        }
    } else if month == 4 || month == 6 || month == 9 || month == 11 {
        30
    } else {
        31
    }
}

impl Date {
    /// Builds a date after checking that year, month and day name a real
    /// calendar day; returns `None` exactly when they do not.
    pub fn new(year: i64, month: i64, day: i64) -> (r: Option<Date>)
        ensures
            match r {
                Some(d) => d == (Date { year, month, day }) && d.valid(),
                None => !(Date { year, month, day }).valid(),
            },
    {
        if 1 <= year && year <= 9999 && 1 <= month && month <= 12 && 1 <= day
            && day <= days_in_month(year, month) {
            Some(Date { year, month, day })
        } else {
            None
        }
    }

    /// Runtime check of `valid`.
    pub fn check_valid(&self) -> (b: bool)
        ensures
            b == self.valid(),
    {
        1 <= self.year && self.year <= 9999 && 1 <= self.month && self.month <= 12 && 1 <= self.day
            && self.day <= days_in_month(self.year, self.month)
    }

    /// The executable form of `day_number`.
    pub fn to_day_number(&self) -> (n: u64)
        requires
            self.valid(),
        ensures
            n == self.day_number(),
            n < DAY_NUMBER_LIMIT,
    {
        let y: u64 = if self.month <= 2 {
            (self.year - 1) as u64
        } else {
            self.year as u64
        };
        let era: u64 = y / 400;
        let yoe: u64 = y - era * 400;
        let mp: u64 = if self.month > 2 {
            (self.month - 3) as u64
        } else {
            (self.month + 9) as u64
        };
        let doy: u64 = (153 * mp + 2) / 5 + (self.day as u64) - 1;
        let doe: u64 = yoe * 365 + yoe / 4 - yoe / 100 + doy;
        era * 146097 + doe
    }
}

/// The executable form of `weekday_of`.
pub fn weekday_of_number(n: u64) -> (w: u64)
    requires
        n < DAY_NUMBER_LIMIT,
    ensures
        w == weekday_of(n as int),
        w < 7,
{
    (n + 2) % 7
}

} // verus!
