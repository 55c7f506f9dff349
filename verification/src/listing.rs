//! The listing of the register: one row for each entry, in the order of who
//! celebrates next.

use crate::calendar::{Date, MAX_YEAR};
use crate::occurrence::{age_at_next, days_to_next, days_until, years_at_next};
use crate::order::put_in_order;
use crate::registry::{Bdays, Person};
use crate::text::{day_and_month, day_month_text};
use vstd::prelude::*;

verus! {

/// What the listing says of one entry.
#[derive(Clone, Debug, PartialEq, Eq)]
pub struct Row {
    pub id: u32,
    pub name: String,
    /// The day and the month of the birthday: `05 March`.
    pub birthday: String,
    /// The days left to the next birthday.
    pub days: i64,
    /// The age reached on the next birthday.
    pub age: i32,
}

/// Whether `row` is what the listing of the day `now` says of `person`.
pub open spec fn describes(now: Date, person: Person, row: Row) -> bool {
    &&& row.id == person.id
    &&& row.name == person.name
    &&& row.birthday@ == day_month_text(person.bday)
    &&& row.days == days_to_next(now, person.bday)
    &&& row.age == years_at_next(now, person.bday)
}

/// Whether `rows` are what the listing of the day `now` says of `list`,
/// entry by entry.
pub open spec fn describe_all(now: Date, list: Seq<Person>, rows: Seq<Row>) -> bool {
    &&& rows.len() == list.len()
    &&& forall|i: int| 0 <= i < list.len() ==> describes(now, list[i], #[trigger] rows[i])
}

/// Calls chrono: `Utc::now()`, `DateTime::naive_local` and `NaiveDateTime::date`
/// for the day it is, and `Datelike::year`, `month` and `day` to read it.
/// Believed of chrono, not proved: that what it gives is a day of the
/// calendar, in a year from `MIN_YEAR` to `MAX_YEAR`. Which day is not said.
/// Where the clock of the machine stands before 1970 or behind the last
/// year of the calendar, chrono ends the program.
#[verifier::external_body]
fn today() -> (r: Date)
    ensures
        r.wf(),
{
    let now = chrono::Utc::now().naive_local().date();
    Date {
        year: chrono::Datelike::year(&now),
        month: chrono::Datelike::month(&now),
        day: chrono::Datelike::day(&now),
    }
}

impl Bdays {
    /// What the listing of the day `now` says of the entries, in the order
    /// in which the register holds them.
    pub fn rows(&self, now: Date) -> (r: Vec<Row>)
        requires
            self.wf(),
            now.wf(),
            now.year < MAX_YEAR,
        ensures
            describe_all(now, self.list@, r@),
    {
        let mut rows: Vec<Row> = Vec::new();
        let mut i: usize = 0;
        while i < self.list.len()
            invariant
                self.wf(),
                now.wf(),
                now.year < MAX_YEAR,
                i <= self.list@.len(),
                rows@.len() == i,
                forall|k: int| 0 <= k < i ==> describes(now, self.list@[k], #[trigger] rows@[k]),
            decreases self.list@.len() - i,
        {
            let person = &self.list[i];
            rows.push(
                Row {
                    id: person.id,
                    name: person.name.clone(),
                    birthday: day_and_month(&person.bday),
                    days: days_until(now, person.bday),
                    age: age_at_next(now, person.bday),
                },
            );
            i = i + 1;
        }
        rows
    }

    /// Puts the register in the order of who celebrates next after `now`
    /// and gives the listing of that day. An empty register has an empty
    /// listing on every day. Of a register with entries there is no listing
    /// in the last year of the calendar, and the register stays as it is.
    pub fn listing(&mut self, now: Date) -> (r: Option<Vec<Row>>)
        requires
            old(self).wf(),
            now.wf(),
        ensures
            r is Some <==> now.year < MAX_YEAR || old(self).list@.len() == 0,
            match r {
                Some(rows) => {
                    &&& put_in_order(now, old(self).list@, final(self).list@)
                    &&& describe_all(now, final(self).list@, rows@)
                },
                None => final(self).list@ == old(self).list@,
            },
            final(self).index == old(self).index,
            final(self).wf(),
    {
        if self.list.len() == 0 {
            Some(Vec::new())
        } else if now.year < MAX_YEAR {
            self.sort(now);
            Some(self.rows(now))
        } else {
            None
        }
    }

    /// The listing of the day it is, with that day. An empty register has
    /// an empty listing whatever day it is. Of a register with entries there
    /// is no listing if it is the last year of the calendar, and the register
    /// stays as it is.
    pub fn listing_today(&mut self) -> (r: Option<(Date, Vec<Row>)>)
        requires
            old(self).wf(),
        ensures
            old(self).list@.len() == 0 ==> r is Some,
            match r {
                Some((now, rows)) => {
                    &&& now.wf()
                    &&& now.year < MAX_YEAR || old(self).list@.len() == 0
                    &&& put_in_order(now, old(self).list@, final(self).list@)
                    &&& describe_all(now, final(self).list@, rows@)
                },
                None => final(self).list@ == old(self).list@,
            },
            final(self).index == old(self).index,
            final(self).wf(),
    {
        let now = today();
        match self.listing(now) {
            Some(rows) => Some((now, rows)),
            None => None,
        }
    }
}

} // verus!
