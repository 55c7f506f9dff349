//! Dates as text.
//!
//! A date is written as the day in two digits, the English name of the
//! month and the year, with one space between them: `05 March 2020`. The
//! year has four digits or more. A year before year 0 has a `-` in front
//! of its digits, a year after 9999 a `+`.
//!
//! What is written so is read back by the library itself. A text that is
//! written otherwise is handed to chrono, which also reads a date with a
//! short day, a short month name or other spacing.

use crate::calendar::{valid_ymd, Date};
use crate::scan::{
    chars_of, find, find_last, holds, is_digit, lemma_padded, lemma_padded_two, padded,
    push_padded, read_number, read_signed, signed_number,
};
use vstd::prelude::*;
use vstd::string::StringExecFns;

verus! {

/// No year of the calendar is further from year 0 than this.
pub const YEAR_LIMIT: u64 = 262143;

/// The pattern by which chrono reads a date.
pub const PATTERN: &'static str = "%d %B %Y";

/// Whether `c` is a letter of the English alphabet.
pub open spec fn is_letter(c: char) -> bool {
    'A' as int <= c as int <= 'Z' as int || 'a' as int <= c as int <= 'z' as int
}

/// The English name of the month `month`; nothing for a number that is
/// no month.
pub open spec fn month_name(month: int) -> Seq<char> {
    if month == 1 {
        "January"@
    } else if month == 2 {
        "February"@
    } else if month == 3 {
        "March"@
    } else if month == 4 {
        "April"@
    } else if month == 5 {
        "May"@
    } else if month == 6 {
        "June"@
    } else if month == 7 {
        "July"@
    } else if month == 8 {
        "August"@
    } else if month == 9 {
        "September"@
    } else if month == 10 {
        "October"@
    } else if month == 11 {
        "November"@
    } else if month == 12 {
        "December"@
    } else {
        ""@
    }
}

/// The year as it is written: four digits or more, behind a `-` for a year
/// before year 0 and behind a `+` for a year after 9999.
pub open spec fn year_text(year: int) -> Seq<char> {
    if year < 0 {
        seq!['-'] + padded((-year) as nat, 4)
    } else if year > 9999 {
        seq!['+'] + padded(year as nat, 4)
    } else {
        padded(year as nat, 4)
    }
}

/// The day and the month as they are written: `05 March`.
pub open spec fn day_month_text(date: Date) -> Seq<char> {
    padded(date.day as nat, 2) + seq![' '] + month_name(date.month as int)
}

/// The date as it is written: `05 March 2020`.
pub open spec fn date_text(date: Date) -> Seq<char> {
    day_month_text(date) + seq![' '] + year_text(date.year as int)
}

/// Whether `text` is the date `date` as it is written, and `date` is a day
/// of the calendar.
pub open spec fn is_text_of(text: Seq<char>, date: Date) -> bool {
    date.wf() && date_text(date) == text
}

/// The date that `text` writes, if `text` is what is written for a day of
/// the calendar.
pub open spec fn written_date(text: Seq<char>) -> Option<Date> {
    if exists|date: Date| is_text_of(text, date) {
        Some(choose|date: Date| is_text_of(text, date))
    } else {
        None
    }
}

/// What chrono's `NaiveDate::parse_from_str` makes of `text` read by
/// `pattern`: the year, the month and the day of the date it finds, or
/// nothing where it finds none.
pub uninterp spec fn chrono_parsed(text: Seq<char>, pattern: Seq<char>) -> Option<(i32, u32, u32)>;

/// The day with the year, the month and the day of `parts`, if there are
/// parts and the calendar has that day.
pub open spec fn date_of_parts(parts: Option<(i32, u32, u32)>) -> Option<Date> {
    match parts {
        Some((year, month, day)) => if valid_ymd(year as int, month as int, day as int) {
            Some(Date { year, month, day })
        } else {
            None
        },
        None => None,
    }
}

/// The date that `text` is read as: the date that it writes, or else what
/// chrono makes of it.
pub open spec fn read_date(text: Seq<char>) -> Option<Date> {
    match written_date(text) {
        Some(date) => Some(date),
        None => date_of_parts(chrono_parsed(text, PATTERN@)),
    }
}

/// The names of the twelve months are made of letters, three to nine of
/// them, and no two months share a name.
pub proof fn lemma_month_names()
    ensures
        forall|m: int| 1 <= m <= 12 ==> 3 <= (#[trigger] month_name(m)).len() <= 9,
        forall|m: int, i: int|
            1 <= m <= 12 && 0 <= i < month_name(m).len() ==> is_letter(
                #[trigger] month_name(m)[i],
            ),
        forall|a: int, b: int|
            1 <= a <= 12 && 1 <= b <= 12 && #[trigger] month_name(a) == #[trigger] month_name(b)
                ==> a == b,
{
    reveal_strlit("January");
    reveal_strlit("February");
    reveal_strlit("March");
    reveal_strlit("April");
    reveal_strlit("May");
    reveal_strlit("June");
    reveal_strlit("July");
    reveal_strlit("August");
    reveal_strlit("September");
    reveal_strlit("October");
    reveal_strlit("November");
    reveal_strlit("December");
    assert forall|a: int, b: int|
        1 <= a <= 12 && 1 <= b <= 12 && #[trigger] month_name(a) == #[trigger] month_name(
            b,
        ) implies a == b by {
        let x = month_name(a);
        let y = month_name(b);
        assert(x.len() == y.len() && x[0] == y[0] && x[1] == y[1] && x[2] == y[2]);
    }
}

/// A year is read back from what is written for it.
pub proof fn lemma_year_text(year: int, limit: nat)
    requires
        -limit <= year <= limit,
    ensures
        signed_number(year_text(year), limit) == Some(year),
        year_text(year).len() >= 4,
        forall|i: int| 0 <= i < year_text(year).len() ==> (#[trigger] year_text(year)[i]) != ' ',
{
    let text = year_text(year);
    let digits = padded((if year < 0 { -year } else { year }) as nat, 4);
    let signs: int = if year < 0 || year > 9999 { 1 } else { 0 };
    lemma_padded((if year < 0 { -year } else { year }) as nat, 4);
    if signs == 1 {
        assert(text.drop_first() =~= digits);
    }
    assert forall|i: int| 0 <= i < text.len() implies (#[trigger] text[i]) != ' ' by {
        // The sign stands in the first place, a digit in every other.
        if i >= signs {
            assert(is_digit(digits[i - signs]));
        }
    }
}

/// Where the parts of a written date stand: the day in the first two
/// places, the name of the month from the fourth on, the year behind it,
/// and a space, the only ones, before and behind the name.
pub proof fn lemma_date_text_parts(date: Date)
    requires
        date.wf(),
    ensures
        ({
            let text = date_text(date);
            let name = month_name(date.month as int);
            let year = year_text(date.year as int);
            let len = name.len() as int;
            &&& text.len() == 4 + len + year.len()
            &&& text.subrange(0, 2) == padded(date.day as nat, 2)
            &&& text.subrange(3, 3 + len) == name
            &&& text.subrange(4 + len, text.len() as int) == year
            &&& forall|i: int|
                0 <= i < text.len() ==> ((#[trigger] text[i]) == ' ' <==> (i == 2 || i == 3 + len))
        }),
{
    let text = date_text(date);
    let day = padded(date.day as nat, 2);
    let name = month_name(date.month as int);
    let year = year_text(date.year as int);
    let len = name.len() as int;
    lemma_padded(date.day as nat, 2);
    lemma_padded_two(date.day as nat);
    lemma_month_names();
    lemma_year_text(date.year as int, YEAR_LIMIT as nat);
    assert forall|i: int| 0 <= i < text.len() implies ((#[trigger] text[i]) == ' ' <==> (i == 2
        || i == 3 + len)) by {
        // Every other place holds a digit of the day, a letter of the name
        // or a character of the year.
        if i < 2 {
            assert(is_digit(day[i]));
        } else if 3 <= i < 3 + len {
            assert(is_letter(name[i - 3]));
        } else if i >= 4 + len {
            assert(year[i - 4 - len] != ' ');
        }
    }
}

/// No two days of the calendar are written alike.
pub proof fn lemma_date_text_injective(a: Date, b: Date)
    requires
        a.wf(),
        b.wf(),
        date_text(a) == date_text(b),
    ensures
        a == b,
{
    let text = date_text(a);
    lemma_date_text_parts(a);
    lemma_date_text_parts(b);
    lemma_month_names();
    let len_a = month_name(a.month as int).len() as int;
    let len_b = month_name(b.month as int).len() as int;
    assert(len_a == len_b) by {
        // The second space stands behind the name of the month.
        assert(text[3 + len_a] == ' ');
        assert(text[3 + len_b] == ' ');
    }
    lemma_padded(a.day as nat, 2);
    lemma_padded(b.day as nat, 2);
    lemma_year_text(a.year as int, YEAR_LIMIT as nat);
    lemma_year_text(b.year as int, YEAR_LIMIT as nat);
}

/// A text writes a date exactly if it is what is written for that date,
/// and the date is a day of the calendar.
pub proof fn lemma_written_date(text: Seq<char>, date: Date)
    ensures
        written_date(text) == Some(date) <==> is_text_of(text, date),
{
    if is_text_of(text, date) {
        let found = choose|d: Date| is_text_of(text, d);
        lemma_date_text_injective(found, date);
    }
}

/// What is written for a day of the calendar is read back as that day.
pub proof fn lemma_round_trip(date: Date)
    requires
        date.wf(),
    ensures
        written_date(date_text(date)) == Some(date),
        read_date(date_text(date)) == Some(date),
{
    lemma_written_date(date_text(date), date);
}

/// The English name of the month `month`; nothing for a number that is
/// no month.
pub fn month_name_of(month: u32) -> (r: &'static str)
    ensures
        r@ == month_name(month as int),
{
    if month == 1 {
        "January"
    } else if month == 2 {
        "February"
    } else if month == 3 {
        "March"
    } else if month == 4 {
        "April"
    } else if month == 5 {
        "May"
    } else if month == 6 {
        "June"
    } else if month == 7 {
        "July"
    } else if month == 8 {
        "August"
    } else if month == 9 {
        "September"
    } else if month == 10 {
        "October"
    } else if month == 11 {
        "November"
    } else if month == 12 {
        "December"
    } else {
        ""
    }
}

/// Writes the year behind `out`.
fn push_year(out: &mut String, year: i32)
    ensures
        final(out)@ == old(out)@ + year_text(year as int),
{
    proof {
        reveal_strlit("-");
        reveal_strlit("+");
    }
    if year < 0 {
        out.append("-");
        push_padded(out, (0 - year as i64) as u32, 4);
    } else if year > 9999 {
        out.append("+");
        push_padded(out, year as u32, 4);
    } else {
        push_padded(out, year as u32, 4);
    }
}

/// The day and the month of `date` as text: `05 March`.
pub fn day_and_month(date: &Date) -> (r: String)
    ensures
        r@ == day_month_text(*date),
{
    proof {
        reveal_strlit(" ");
    }
    let mut out = String::new();
    push_padded(&mut out, date.day, 2);
    out.append(" ");
    out.append(month_name_of(date.month));
    out
}

/// The date as text: `05 March 2020`.
pub fn format_date(date: &Date) -> (r: String)
    ensures
        r@ == date_text(*date),
{
    proof {
        reveal_strlit(" ");
    }
    let mut out = day_and_month(date);
    out.append(" ");
    push_year(&mut out, date.year);
    out
}

/// The month whose name `text` holds from `from` up to `to`, if it holds
/// one there.
fn read_month(text: &Vec<char>, from: usize, to: usize) -> (r: Option<u32>)
    requires
        from <= to <= text@.len(),
    ensures
        match r {
            Some(m) => 1 <= m <= 12 && text@.subrange(from as int, to as int) == month_name(
                m as int,
            ),
            None => forall|m: int|
                1 <= m <= 12 ==> text@.subrange(from as int, to as int) != #[trigger] month_name(m),
        },
{
    let mut month: u32 = 1;
    while month <= 12
        invariant
            from <= to <= text@.len(),
            1 <= month <= 13,
            forall|m: int|
                1 <= m < month ==> text@.subrange(from as int, to as int) != #[trigger] month_name(
                    m,
                ),
        decreases 13 - month,
    {
        let name = chars_of(month_name_of(month));
        if holds(text, from, to, &name) {
            return Some(month);
        }
        month = month + 1;
    }
    None
}

/// The date that `s` writes, if it is, character for character, what is
/// written for a day of the calendar.
pub fn parse_written(s: &str) -> (r: Option<Date>)
    ensures
        r == written_date(s@),
{
    let text = chars_of(s);
    let first = find(&text, 0, ' ');
    let behind = find_last(&text, ' ');
    let ghost known = exists|date: Date| is_text_of(s@, date);
    let ghost date = choose|date: Date| is_text_of(s@, date);
    proof {
        if known {
            lemma_date_text_parts(date);
            lemma_padded(date.day as nat, 2);
            lemma_year_text(date.year as int, YEAR_LIMIT as nat);
            lemma_month_names();
            let len = month_name(date.month as int).len() as int;
            assert(first == 2) by {
                assert(text@[2] == ' ');
            }
            assert(behind == 4 + len) by {
                assert(text@[3 + len] == ' ');
                if behind > 0 {
                    assert(text@[behind - 1] == ' ');
                }
            }
        }
    }
    if first >= behind || behind - first < 2 {
        return None;
    }
    let day = read_number(&text, 0, first, 99);
    let month = read_month(&text, first + 1, behind - 1);
    let year = read_signed(&text, behind, text.len(), YEAR_LIMIT);
    if day.is_none() || month.is_none() || year.is_none() {
        return None;
    }
    let found = Date::new(year.unwrap() as i32, month.unwrap(), day.unwrap() as u32);
    if found.is_none() {
        return None;
    }
    let found = found.unwrap();
    let written = chars_of(format_date(&found).as_str());
    if holds(&text, 0, text.len(), &written) {
        assert(text@.subrange(0, text@.len() as int) =~= text@);
        proof {
            lemma_written_date(s@, found);
        }
        Some(found)
    } else {
        assert(text@.subrange(0, text@.len() as int) =~= text@);
        None
    }
}

/// Calls chrono: `NaiveDate::parse_from_str` with `text` and `pattern`, and
/// `Datelike::year`, `month` and `day` to read the date that it finds.
/// Believed of chrono, not proved: that what it finds depends on the two
/// texts alone. What it finds is not said.
#[verifier::external_body]
fn parse_with_chrono(text: &str, pattern: &str) -> (r: Option<(i32, u32, u32)>)
    ensures
        r == chrono_parsed(text@, pattern@),
{
    match chrono::NaiveDate::parse_from_str(text, pattern) {
        Ok(date) => Some(
            (
                chrono::Datelike::year(&date),
                chrono::Datelike::month(&date),
                chrono::Datelike::day(&date),
            ),
        ),
        Err(_) => None,
    }
}

/// The day with the year, the month and the day of `parts`, if there are
/// parts and the calendar has that day.
pub fn date_from_parts(parts: Option<(i32, u32, u32)>) -> (r: Option<Date>)
    ensures
        r == date_of_parts(parts),
{
    match parts {
        Some((year, month, day)) => Date::new(year, month, day),
        None => None,
    }
}

/// The date that `s` is read as: the date that it writes, or else what
/// chrono makes of it.
pub fn parse_date(s: &str) -> (r: Option<Date>)
    ensures
        r == read_date(s@),
{
    match parse_written(s) {
        Some(date) => Some(date),
        None => date_from_parts(parse_with_chrono(s, PATTERN)),
    }
}

/// The day and the month of the date that `date` is read as, as text:
/// `05 March` for `05 March 2020`.
pub fn get_formatted_date(date: &str) -> (r: Option<String>)
    ensures
        match r {
            Some(text) => read_date(date@) is Some && text@ == day_month_text(read_date(date@)->0),
            None => read_date(date@) is None,
        },
{
    match parse_date(date) {
        Some(found) => Some(day_and_month(&found)),
        None => None,
    }
}

} // verus!
