//! What is typed on the command line: what the program is asked to do, a
//! date as day, month and year with `-` between them, and the identifier of
//! an entry.

use crate::calendar::{valid_ymd, Date};
use crate::scan::{bounded_number, chars_of, find, read_number};
use vstd::prelude::*;
use vstd::string::StringExecFns;

verus! {

/// Why a typed date is refused.
#[derive(Clone, Copy, Debug, PartialEq, Eq, Structural)]
pub enum DateError {
    /// There are fewer than three parts.
    MissingPart,
    /// One of the first three parts is no number, or too large a number.
    NotANumber,
    /// The calendar has no such day.
    NoSuchDay,
}

/// What the program is asked to do.
#[derive(Clone, Debug, PartialEq, Eq)]
pub enum Command {
    /// Show how the program is used.
    Help,
    /// List the entries.
    List,
    /// Add an entry with this name and this birthday.
    Add { name: String, bday: Date },
    /// Remove the first entry with this identifier.
    Remove { id: u32 },
}

/// Why the program does nothing of what it could be asked to do.
#[derive(Clone, Copy, Debug, PartialEq, Eq, Structural)]
pub enum UsageError {
    /// There are no words at all, not even the name of the program.
    NoWords,
    /// The first word behind the name of the program is none that the
    /// program knows.
    UnknownWord,
    /// `add` is not followed by a name and a date.
    AddWhat,
    /// The date to add is refused.
    BadDate(DateError),
    /// `rm` or `remove` is not followed by an identifier.
    RemoveWhat,
    /// The identifier to remove is no number, or too large a number.
    BadId,
}

/// The identifier that `text` gives: a number in digits, with a `+` in
/// front or without one, that is not too large for an identifier.
pub open spec fn typed_id(text: Seq<char>) -> Option<u32> {
    match typed_number(text, u32::MAX as nat) {
        Some(id) => Some(id as u32),
        None => None,
    }
}

/// What the words of the command line ask for. The first word is the name
/// of the program; without a word behind it, they ask for help.
pub open spec fn asked(words: Seq<String>) -> Result<Command, UsageError> {
    if words.len() == 0 {
        Err(UsageError::NoWords)
    } else if words.len() == 1 || words[1]@ == "help"@ {
        Ok(Command::Help)
    } else if words[1]@ == "ls"@ || words[1]@ == "list"@ {
        Ok(Command::List)
    } else if words[1]@ == "add"@ {
        if words.len() < 4 {
            Err(UsageError::AddWhat)
        } else {
            match typed_date(words[3]@) {
                Ok(bday) => Ok(Command::Add { name: words[2], bday }),
                Err(e) => Err(UsageError::BadDate(e)),
            }
        }
    } else if words[1]@ == "rm"@ || words[1]@ == "remove"@ {
        if words.len() < 3 {
            Err(UsageError::RemoveWhat)
        } else {
            match typed_id(words[2]@) {
                Some(id) => Ok(Command::Remove { id }),
                None => Err(UsageError::BadId),
            }
        }
    } else {
        Err(UsageError::UnknownWord)
    }
}

/// The exit code of the program: 0 where it does what it is asked to do, 1
/// where it is asked nothing that it could do.
pub open spec fn exit_code_of(asked: Result<Command, UsageError>) -> i32 {
    if asked is Ok {
        0
    } else {
        1
    }
}

/// The place of the first `c` in `text`; the length of `text` if there is
/// none.
pub open spec fn first_place(text: Seq<char>, c: char) -> int
    decreases text.len(),
{
    if text.len() == 0 || text[0] == c {
        0
    } else {
        1 + first_place(text.drop_first(), c)
    }
}

/// The first part of `text`: what stands before its first `-`.
pub open spec fn first_part(text: Seq<char>) -> Seq<char> {
    text.take(first_place(text, '-'))
}

/// Whether `text` has a part behind the first one.
pub open spec fn has_more_parts(text: Seq<char>) -> bool {
    first_place(text, '-') < text.len()
}

/// `text` without its first part and the `-` behind it.
pub open spec fn later_parts(text: Seq<char>) -> Seq<char> {
    text.skip(first_place(text, '-') + 1)
}

/// The number that `text` writes in digits, with a `+` in front or without
/// one, if it is not above `limit`.
pub open spec fn typed_number(text: Seq<char>, limit: nat) -> Option<nat> {
    if text.len() > 0 && text[0] == '+' {
        bounded_number(text.drop_first(), limit)
    } else {
        bounded_number(text, limit)
    }
}

/// The date that `text` gives as day, month and year with `-` between
/// them, each a number in digits with a `+` in front or without one, or why
/// it gives none. What follows the year behind another `-` is not looked
/// at.
pub open spec fn typed_date(text: Seq<char>) -> Result<Date, DateError> {
    if !has_more_parts(text) || !has_more_parts(later_parts(text)) {
        Err(DateError::MissingPart)
    } else {
        let day = typed_number(first_part(text), u32::MAX as nat);
        let month = typed_number(first_part(later_parts(text)), u32::MAX as nat);
        let year = typed_number(first_part(later_parts(later_parts(text))), i32::MAX as nat);
        if day is None || month is None || year is None {
            Err(DateError::NotANumber)
        } else if !valid_ymd(year->0 as int, month->0 as int, day->0 as int) {
            Err(DateError::NoSuchDay)
        } else {
            Ok(Date { year: year->0 as i32, month: month->0 as u32, day: day->0 as u32 })
        }
    }
}

/// The first place of a character is where it stands with none of its kind
/// before it.
pub proof fn lemma_first_place(text: Seq<char>, c: char, at: int)
    requires
        0 <= at <= text.len(),
        forall|i: int| 0 <= i < at ==> text[i] != c,
        at < text.len() ==> text[at] == c,
    ensures
        first_place(text, c) == at,
    decreases text.len(),
{
    if text.len() == 0 || text[0] == c {
    } else {
        lemma_first_place(text.drop_first(), c, at - 1);
    }
}

/// The number that `text` writes from `from` up to `to`, with a `+` in
/// front or without one, if it is not above `limit`.
fn read_typed(text: &Vec<char>, from: usize, to: usize, limit: u64) -> (r: Option<u64>)
    requires
        from <= to <= text@.len(),
        limit <= u32::MAX,
    ensures
        r == match typed_number(text@.subrange(from as int, to as int), limit as nat) {
            Some(n) => Some(n as u64),
            None => None,
        },
{
    let ghost part = text@.subrange(from as int, to as int);
    if from < to && text[from] == '+' {
        assert(part.drop_first() =~= text@.subrange(from + 1, to as int));
        read_number(text, from + 1, to, limit)
    } else {
        read_number(text, from, to, limit)
    }
}

/// The date that `s` gives as day, month and year with `-` between them:
/// `5-3-2020` is the fifth of March 2020.
pub fn parse_dmy(s: &str) -> (r: Result<Date, DateError>)
    ensures
        r == typed_date(s@),
{
    let text = chars_of(s);
    let len = text.len();
    let first = find(&text, 0, '-');
    proof {
        lemma_first_place(text@, '-', first as int);
    }
    if first >= len {
        return Err(DateError::MissingPart);
    }
    let second = find(&text, first + 1, '-');
    let ghost later = later_parts(text@);
    proof {
        assert(later =~= text@.subrange(first + 1, len as int));
        lemma_first_place(later, '-', second - first - 1);
    }
    if second >= len {
        return Err(DateError::MissingPart);
    }
    let third = find(&text, second + 1, '-');
    let ghost last = later_parts(later);
    proof {
        assert(last =~= text@.subrange(second + 1, len as int));
        lemma_first_place(last, '-', third - second - 1);
        // The three parts stand between the places found.
        assert(first_part(text@) =~= text@.subrange(0, first as int));
        assert(first_part(later) =~= text@.subrange(first + 1, second as int));
        assert(first_part(last) =~= text@.subrange(second + 1, third as int));
    }
    let day = read_typed(&text, 0, first, u32::MAX as u64);
    let month = read_typed(&text, first + 1, second, u32::MAX as u64);
    let year = read_typed(&text, second + 1, third, i32::MAX as u64);
    if day.is_none() || month.is_none() || year.is_none() {
        return Err(DateError::NotANumber);
    }
    match Date::new(year.unwrap() as i32, month.unwrap() as u32, day.unwrap() as u32) {
        Some(date) => Ok(date),
        None => Err(DateError::NoSuchDay),
    }
}

/// The identifier that `s` gives: a number in digits, with a `+` in front
/// or without one.
pub fn parse_id(s: &str) -> (r: Option<u32>)
    ensures
        r == typed_id(s@),
{
    let text = chars_of(s);
    assert(text@.subrange(0, text@.len() as int) =~= text@);
    match read_typed(&text, 0, text.len(), u32::MAX as u64) {
        Some(id) => Some(id as u32),
        None => None,
    }
}

/// Whether `s` is the word `word`.
fn is_word(s: &String, word: &str) -> (r: bool)
    ensures
        r == (s@ == word@),
{
    *s == String::from_str(word)
}

/// What the words of the command line ask for.
pub fn parse_args(words: &Vec<String>) -> (r: Result<Command, UsageError>)
    ensures
        r == asked(words@),
{
    if words.len() == 0 {
        return Err(UsageError::NoWords);
    }
    if words.len() == 1 || is_word(&words[1], "help") {
        return Ok(Command::Help);
    }
    let word = &words[1];
    if is_word(word, "ls") || is_word(word, "list") {
        Ok(Command::List)
    } else if is_word(word, "add") {
        if words.len() < 4 {
            Err(UsageError::AddWhat)
        } else {
            match parse_dmy(words[3].as_str()) {
                Ok(bday) => Ok(Command::Add { name: words[2].clone(), bday }),
                Err(e) => Err(UsageError::BadDate(e)),
            }
        }
    } else if is_word(word, "rm") || is_word(word, "remove") {
        if words.len() < 3 {
            Err(UsageError::RemoveWhat)
        } else {
            match parse_id(words[2].as_str()) {
                Some(id) => Ok(Command::Remove { id }),
                None => Err(UsageError::BadId),
            }
        }
    } else {
        Err(UsageError::UnknownWord)
    }
}

/// The exit code of the program: 0 where it does what it is asked to do, 1
/// where it is asked nothing that it could do.
pub fn exit_code(asked: &Result<Command, UsageError>) -> (code: i32)
    ensures
        code == exit_code_of(*asked),
{
    match asked {
        Ok(_) => 0,
        Err(_) => 1,
    }
}

} // verus!
