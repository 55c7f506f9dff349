//! The proleptic Gregorian calendar: which dates exist, how they are ordered,
//! and how many days lie between two of them.

use vstd::prelude::*;

verus! {

/// The earliest year a [`Date`] may lie in.
pub const MIN_YEAR: i32 = -262143;

/// The latest year a [`Date`] may lie in.
pub const MAX_YEAR: i32 = 262142;

/// Whether `year` has a 29th of February.
pub open spec fn is_leap_year(year: int) -> bool {
    year % 4 == 0 && (year % 100 != 0 || year % 400 == 0)
}

/// The number of days of `month` in `year`; 0 if there is no such month.
pub open spec fn days_in_month(year: int, month: int) -> int {
    if month < 1 || month > 12 {
        0
    } else if month == 2 {
        if is_leap_year(year) { 29 } else { 28 }
    } else if month == 4 || month == 6 || month == 9 || month == 11 {
        30
    } else {
        31
    }
}

/// Whether the calendar has a day `day` in month `month` of `year`.
pub open spec fn valid_ymd(year: int, month: int, day: int) -> bool {
    &&& MIN_YEAR <= year <= MAX_YEAR
    &&& 1 <= month <= 12
    &&& 1 <= day <= days_in_month(year, month)
}

/// Whether `year` has a 29th of February.
pub fn is_leap(year: i32) -> (r: bool)
    ensures
        r == is_leap_year(year as int),
{
    year % 4 == 0 && (year % 100 != 0 || year % 400 == 0)
}

/// The number of days of `month` in `year`; 0 if there is no such month.
pub fn month_length(year: i32, month: u32) -> (r: u32)
    ensures
        r == days_in_month(year as int, month as int),
{
    if month < 1 || month > 12 {
        0
    } else if month == 2 {
        if is_leap(year) { 29 } else { 28 }
    } else if month == 4 || month == 6 || month == 9 || month == 11 {
        30
    } else {
        31
    }
}

/// The number of days of `year` that lie before the first of `month`: the
/// lengths of the months before it, added up.
pub open spec fn days_before_month(year: int, month: int) -> int
    decreases month,
{
    if month <= 1 {
        0
    } else {
        days_before_month(year, month - 1) + days_in_month(year, month - 1)
    }
}

/// The number of days of `year`.
pub open spec fn days_in_year(year: int) -> int {
    if is_leap_year(year) { 366 } else { 365 }
}

/// The number of days from the first of January of year 1 up to, and without,
/// the first of January of `year`; negative for the years before year 1.
pub open spec fn days_before_year(year: int) -> int {
    let y = year - 1;
    365 * y + y / 4 - y / 100 + y / 400
}

/// A day of the calendar.
#[derive(Clone, Copy, Debug, PartialEq, Eq, Structural)]
pub struct Date {
    pub year: i32,
    pub month: u32,
    pub day: u32,
}

impl Date {
    /// Whether the calendar has this day.
    pub open spec fn wf(self) -> bool {
        valid_ymd(self.year as int, self.month as int, self.day as int)
    }

    /// The days are counted so that the first of January of year 1 is day 1
    /// and each day has the number of the day before it plus one.
    pub open spec fn day_number(self) -> int {
        days_before_year(self.year as int) + days_before_month(self.year as int, self.month as int)
            + self.day
    }

    /// Whether this day comes earlier than `other`.
    pub open spec fn before(self, other: Date) -> bool {
        ||| self.year < other.year
        ||| self.year == other.year && self.month < other.month
        ||| self.year == other.year && self.month == other.month && self.day < other.day
    }

    /// The day `day` of month `month` of `year`, if the calendar has it.
    pub fn new(year: i32, month: u32, day: u32) -> (r: Option<Date>)
        ensures
            r is Some <==> valid_ymd(year as int, month as int, day as int),
            r is Some ==> r->0 == (Date { year, month, day }) && r->0.wf(),
    {
        let year_fits = MIN_YEAR <= year && year <= MAX_YEAR;
        let month_fits = 1 <= month && month <= 12;
        if year_fits && month_fits && 1 <= day && day <= month_length(year, month) {
            Some(Date { year, month, day })
        } else {
            None
        }
    }

    /// The same month and day in `year`, if the calendar has that day.
    pub fn with_year(self, year: i32) -> (r: Option<Date>)
        ensures
            r is Some <==> valid_ymd(year as int, self.month as int, self.day as int),
            r is Some ==> r->0 == (Date { year, month: self.month, day: self.day }) && r->0.wf(),
    {
        Date::new(year, self.month, self.day)
    }

    /// Whether this day comes earlier than `other`.
    pub fn is_before(self, other: Date) -> (r: bool)
        ensures
            r == self.before(other),
    {
        if self.year != other.year {
            self.year < other.year
        } else if self.month != other.month {
            self.month < other.month
        } else {
            self.day < other.day
        }
    }

    /// The number of days from `earlier` to this day; negative if this day is
    /// the earlier one.
    pub fn days_since(self, earlier: Date) -> (r: i64)
        requires
            self.wf(),
            earlier.wf(),
        ensures
            r == self.day_number() - earlier.day_number(),
    {
        days_between(self, earlier)
    }
}

/// Calls chrono: builds both days with `NaiveDate::from_ymd_opt`, subtracts
/// them with `NaiveDate::signed_duration_since` and reads the difference with
/// `TimeDelta::num_days`. Believed of chrono, not proved: that this is the
/// number of days from `b` to `a` in the proleptic Gregorian calendar, which
/// is the difference of their day numbers.
#[verifier::external_body]
fn days_between(a: Date, b: Date) -> (r: i64)
    requires
        a.wf(),
        b.wf(),
    ensures
        r == a.day_number() - b.day_number(),
{
    let end = chrono::NaiveDate::from_ymd_opt(a.year, a.month, a.day).unwrap();
    let start = chrono::NaiveDate::from_ymd_opt(b.year, b.month, b.day).unwrap();
    end.signed_duration_since(start).num_days()
}

/// The days before each month of a year, month by month.
pub proof fn lemma_days_before_month(year: int, month: int)
    requires
        1 <= month <= 12,
    ensures
        days_before_month(year, month) == if month == 1 {
            0int
        } else if month == 2 {
            31
        } else {
            let leap: int = if is_leap_year(year) { 1 } else { 0 };
            leap + if month == 3 {
                59int
            } else if month == 4 {
                90
            } else if month == 5 {
                120
            } else if month == 6 {
                151
            } else if month == 7 {
                181
            } else if month == 8 {
                212
            } else if month == 9 {
                243
            } else if month == 10 {
                273
            } else if month == 11 {
                304
            } else {
                334
            }
        },
        days_before_month(year, month) + days_in_month(year, month) <= days_in_year(year),
{
    reveal_with_fuel(days_before_month, 13);
}

/// A year begins as many days after the year before it as that year has.
pub proof fn lemma_year_follows_year(year: int)
    ensures
        days_before_year(year + 1) == days_before_year(year) + days_in_year(year),
{
}

/// Later years begin later, by at least 365 days for each year between.
pub proof fn lemma_later_year_begins_later(earlier: int, later: int)
    requires
        earlier <= later,
    ensures
        days_before_year(earlier) + 365 * (later - earlier) <= days_before_year(later),
    decreases later - earlier,
{
    if earlier < later {
        lemma_later_year_begins_later(earlier, later - 1);
        lemma_year_follows_year(later - 1);
    }
}

/// The day that follows `date` in the calendar.
pub open spec fn day_after(date: Date) -> Date {
    if date.day < days_in_month(date.year as int, date.month as int) {
        Date { year: date.year, month: date.month, day: (date.day + 1) as u32 }
    } else if date.month < 12 {
        Date { year: date.year, month: (date.month + 1) as u32, day: 1 }
    } else {
        Date { year: (date.year + 1) as i32, month: 1, day: 1 }
    }
}

/// The day that follows a day has the number that follows its number: the
/// difference of two day numbers is the number of days from one day to the
/// other.
pub proof fn lemma_day_after(date: Date)
    requires
        date.wf(),
    ensures
        day_after(date).day_number() == date.day_number() + 1,
{
    lemma_days_before_month(date.year as int, date.month as int);
    if date.month < 12 {
        lemma_days_before_month(date.year as int, date.month + 1);
    }
    lemma_year_follows_year(date.year as int);
}

/// The day numbers order the days as the calendar does, and no two days
/// share a number.
pub proof fn lemma_day_number_orders(a: Date, b: Date)
    requires
        a.wf(),
        b.wf(),
    ensures
        a.before(b) <==> a.day_number() < b.day_number(),
        a == b <==> a.day_number() == b.day_number(),
{
    lemma_days_before_month(a.year as int, a.month as int);
    lemma_days_before_month(b.year as int, b.month as int);
    if a.year < b.year {
        lemma_year_follows_year(a.year as int);
        lemma_later_year_begins_later(a.year + 1, b.year as int);
    } else if b.year < a.year {
        lemma_year_follows_year(b.year as int);
        lemma_later_year_begins_later(b.year + 1, a.year as int);
    }
}

} // verus!
