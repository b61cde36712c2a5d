//! Calendar dates: the keys of every habit's ledger.

use vstd::prelude::*;

verus! {

/// The earliest year a [`Date`] can lie in.
pub const MIN_YEAR: i32 = -262_143;

/// The latest year a [`Date`] can lie in.
pub const MAX_YEAR: i32 = 262_142;

/// Whether `year` has a 29th of February in the proleptic Gregorian calendar.
pub open spec fn is_leap_year(year: int) -> bool {
    year % 4 == 0 && (year % 100 != 0 || year % 400 == 0)
}

/// The number of days of `month` in `year`, for `month` from 1 to 12.
pub open spec fn days_in_month(year: int, month: int) -> int {
    if month == 2 {
        if is_leap_year(year) {
            29
        } else {
            28
        }
    } else if month == 4 || month == 6 || month == 9 || month == 11 {
        30
    } else {
        31
    }
}

/// Year, month and day as mathematical integers: what a [`Date`] stands for.
pub struct Ymd {
    pub year: int,
    pub month: int,
    pub day: int,
}

impl Ymd {
    /// The day exists in the proleptic Gregorian calendar and its year is
    /// between [`MIN_YEAR`] and [`MAX_YEAR`].
    pub open spec fn is_calendar_date(self) -> bool {
        &&& MIN_YEAR <= self.year <= MAX_YEAR
        &&& 1 <= self.month <= 12
        &&& 1 <= self.day <= days_in_month(self.year, self.month)
    }

    /// `self` is an earlier day than `other`.
    pub open spec fn precedes(self, other: Ymd) -> bool {
        ||| self.year < other.year
        ||| self.year == other.year && self.month < other.month
        ||| self.year == other.year && self.month == other.month && self.day < other.day
    }

    /// `self` is `other` or an earlier day.
    pub open spec fn on_or_before(self, other: Ymd) -> bool {
        self == other || self.precedes(other)
    }

    /// A number that grows with the date: later calendar dates have larger
    /// numbers, and every calendar date has one from 0 up to, but not
    /// including, [`DAY_NUMBERS`].
    pub open spec fn day_number(self) -> int {
        (self.year - MIN_YEAR) * 372 + (self.month - 1) * 31 + (self.day - 1)
    }
}

/// An upper bound on [`Ymd::day_number`], and so on the number of calendar dates.
pub const DAY_NUMBERS: u32 = 195_034_392;

/// Day numbers are within their bound and keep the order of calendar dates.
pub proof fn lemma_day_number(a: Ymd, b: Ymd)
    requires
        a.is_calendar_date(),
        b.is_calendar_date(),
    ensures
        0 <= a.day_number() < DAY_NUMBERS,
        a.precedes(b) <==> a.day_number() < b.day_number(),
        a == b <==> a.day_number() == b.day_number(),
{
}

/// A day of the proleptic Gregorian calendar.
///
/// Every value is a calendar date, so nothing that takes a `Date` has to
/// check it again.
#[derive(Clone, Copy, Debug, PartialEq, Eq, Structural, Hash)]
pub struct Date {
    year: i32,
    month: u32,
    day: u32,
}

impl View for Date {
    type V = Ymd;

    closed spec fn view(&self) -> Ymd {
        Ymd { year: self.year as int, month: self.month as int, day: self.day as int }
    }
}

/// Asks `chrono::NaiveDate::from_ymd_opt` whether the three numbers name a day.
///
/// Trusted: chrono answers with a date exactly when the month is from 1 to 12,
/// the day exists in that month of that year, and the year is one that
/// `NaiveDate` can hold, from -262143 to 262142.
#[verifier::external_body]
fn chrono_has_date(year: i32, month: u32, day: u32) -> (found: bool)
    ensures
        found == (Ymd { year: year as int, month: month as int, day: day as int }).is_calendar_date(),
{
    chrono::NaiveDate::from_ymd_opt(year, month, day).is_some()
}

/// Reads the clock through `chrono::Local::now` and takes the date of that
/// moment in UTC.
///
/// Trusted: whatever the clock says, what comes back is a day that
/// `NaiveDate` can hold, so a calendar date. Nothing is claimed about which
/// day it is. chrono stops the program if the clock stands before 1970 or
/// beyond the days that it can hold, or if it finds no offset for the local
/// time zone.
#[verifier::external_body]
fn chrono_today() -> (today: Date)
    ensures
        today@.is_calendar_date(),
{
    let date = chrono::Local::now().naive_utc().date();
    Date {
        year: chrono::Datelike::year(&date),
        month: chrono::Datelike::month(&date),
        day: chrono::Datelike::day(&date),
    }
}

impl Date {
    /// What holds of every `Date`: it is a calendar date.
    #[verifier::type_invariant]
    pub open spec fn is_valid(self) -> bool {
        self@.is_calendar_date()
    }

    /// The date with the given year, month and day, if there is such a day.
    pub fn from_ymd(year: i32, month: u32, day: u32) -> (date: Option<Date>)
        ensures
            date is Some <==> (Ymd {
                year: year as int,
                month: month as int,
                day: day as int,
            }).is_calendar_date(),
            date matches Some(d) ==> d@ == (Ymd {
                year: year as int,
                month: month as int,
                day: day as int,
            }),
    {
        if chrono_has_date(year, month, day) {
            Some(Date { year, month, day })
        } else {
            None
        }
    }

    /// The current day in UTC, as the system clock has it.
    pub fn today() -> (today: Date)
        ensures
            today@.is_calendar_date(),
    {
        chrono_today()
    }

    /// The year.
    pub fn year(&self) -> (year: i32)
        ensures
            year == self@.year,
            self@.is_calendar_date(),
    {
        proof {
            use_type_invariant(self);
        }
        self.year
    }

    /// The month, from 1 to 12.
    pub fn month(&self) -> (month: u32)
        ensures
            month == self@.month,
            self@.is_calendar_date(),
    {
        proof {
            use_type_invariant(self);
        }
        self.month
    }

    /// The day of the month, from 1.
    pub fn day(&self) -> (day: u32)
        ensures
            day == self@.day,
            self@.is_calendar_date(),
    {
        proof {
            use_type_invariant(self);
        }
        self.day
    }

    /// Whether `self` is an earlier day than `other`.
    pub fn precedes(&self, other: &Date) -> (earlier: bool)
        ensures
            earlier == self@.precedes(other@),
    {
        self.year < other.year || (self.year == other.year && (self.month < other.month || (
        self.month == other.month && self.day < other.day)))
    }

    /// Whether `self` is `other` or an earlier day.
    pub fn on_or_before(&self, other: &Date) -> (reached: bool)
        ensures
            reached == self@.on_or_before(other@),
    {
        !other.precedes(self)
    }

    /// Whether both are the same day.
    pub fn same_day(&self, other: &Date) -> (same: bool)
        ensures
            same == (self@ == other@),
    {
        self.year == other.year && self.month == other.month && self.day == other.day
    }
}

} // verus!
