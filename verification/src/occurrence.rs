//! The next occurrence of a yearly event, and how far away it is.
//!
//! An event is given by any day on which it once fell; only the month and
//! the day of that date recur. An event of the 29th of February is kept on
//! the first of March in the years that have no such day.

use crate::calendar::{
    is_leap_year, lemma_days_before_month, lemma_year_follows_year, Date, MAX_YEAR,
};
use vstd::prelude::*;

verus! {

/// The day on which the event of `event` is kept in `year`.
pub open spec fn observance(event: Date, year: int) -> Date {
    if event.month == 2 && event.day == 29 && !is_leap_year(year) {
        Date { year: year as i32, month: 3, day: 1 }
    } else {
        Date { year: year as i32, month: event.month, day: event.day }
    }
}

/// Whether the month and day of `event` are over for this year on `now`.
/// They are over on the day itself.
pub open spec fn passed(now: Date, event: Date) -> bool {
    event.month < now.month || (event.month == now.month && event.day <= now.day)
}

/// The next day after `now` on which the event of `event` is kept: in the
/// year of `now` if its month and day are still to come, in the year after
/// if not.
pub open spec fn next_occurrence(now: Date, event: Date) -> Date {
    if passed(now, event) {
        observance(event, now.year + 1)
    } else {
        observance(event, now.year as int)
    }
}

/// The number of days from `now` to the next occurrence of `event`.
pub open spec fn days_to_next(now: Date, event: Date) -> int {
    next_occurrence(now, event).day_number() - now.day_number()
}

/// The number of years that the event of `event` is old at its next
/// occurrence after `now`.
pub open spec fn years_at_next(now: Date, event: Date) -> int {
    next_occurrence(now, event).year - event.year
}

/// The next occurrence comes after `now`, in the year of `now` or in the
/// year after it, on the day on which the event is kept in that year. It is
/// a day of the calendar unless `now` lies in the last year of the calendar.
pub proof fn lemma_next_occurrence_is_later(now: Date, event: Date)
    requires
        now.wf(),
        event.wf(),
    ensures
        now.before(next_occurrence(now, event)),
        next_occurrence(now, event).year == now.year || next_occurrence(now, event).year
            == now.year + 1,
        next_occurrence(now, event) == observance(
            event,
            next_occurrence(now, event).year as int,
        ),
        now.year < MAX_YEAR ==> next_occurrence(now, event).wf(),
{
}

/// The next occurrence has the month and the day of the event, but for an
/// event of the 29th of February in a year without one.
pub proof fn lemma_next_occurrence_keeps_month_and_day(now: Date, event: Date)
    requires
        now.wf(),
        event.wf(),
        !(event.month == 2 && event.day == 29) || is_leap_year(
            next_occurrence(now, event).year as int,
        ),
    ensures
        next_occurrence(now, event).month == event.month,
        next_occurrence(now, event).day == event.day,
{
}

/// The year of the event does not matter: events of the same month and day
/// have the same next occurrence.
pub proof fn lemma_next_occurrence_ignores_year(now: Date, event: Date, other: Date)
    requires
        event.month == other.month,
        event.day == other.day,
    ensures
        next_occurrence(now, event) == next_occurrence(now, other),
        days_to_next(now, event) == days_to_next(now, other),
{
}

/// No day between `now` and the next occurrence keeps the event: the next
/// occurrence is the first one after `now`.
pub proof fn lemma_next_occurrence_is_first(now: Date, event: Date, day: Date)
    requires
        now.wf(),
        event.wf(),
        day.wf(),
        now.before(day),
        day == observance(event, day.year as int),
    ensures
        !day.before(next_occurrence(now, event)),
{
}

/// The next occurrence is at least one day and at most 366 days away.
pub proof fn lemma_days_to_next_bounds(now: Date, event: Date)
    requires
        now.wf(),
        event.wf(),
        now.year < MAX_YEAR,
    ensures
        1 <= days_to_next(now, event) <= 366,
{
    let next = next_occurrence(now, event);
    lemma_days_before_month(now.year as int, now.month as int);
    lemma_days_before_month(next.year as int, next.month as int);
    lemma_year_follows_year(now.year as int);
}

/// The next day after `now` on which the event that fell on `date` is kept.
pub fn next_occurance(now: Date, date: Date) -> (r: Date)
    requires
        now.wf(),
        date.wf(),
        now.year < MAX_YEAR,
    ensures
        r == next_occurrence(now, date),
        r.wf(),
        now.before(r),
        r.year == now.year || r.year == now.year + 1,
        (r.month == date.month && r.day == date.day) || (date.month == 2 && date.day == 29
            && !is_leap_year(r.year as int) && r.month == 3 && r.day == 1),
{
    let over = date.month < now.month || (date.month == now.month && date.day <= now.day);
    let year: i32 = if over { now.year + 1 } else { now.year };
    match date.with_year(year) {
        Some(d) => d,
        None => Date { year, month: 3, day: 1 },
    }
}

/// The number of days from `now` to the next occurrence of the event that
/// fell on `date`.
pub fn days_until(now: Date, date: Date) -> (r: i64)
    requires
        now.wf(),
        date.wf(),
        now.year < MAX_YEAR,
    ensures
        r == days_to_next(now, date),
        1 <= r <= 366,
{
    proof {
        lemma_days_to_next_bounds(now, date);
    }
    next_occurance(now, date).days_since(now)
}

/// The number of years that the event that fell on `date` is old at its
/// next occurrence after `now`.
pub fn age_at_next(now: Date, date: Date) -> (r: i32)
    requires
        now.wf(),
        date.wf(),
        now.year < MAX_YEAR,
    ensures
        r == years_at_next(now, date),
{
    next_occurance(now, date).year - date.year
}

} // verus!
