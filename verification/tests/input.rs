use bday::calendar::{Date, MAX_YEAR};
use bday::input::{exit_code, parse_args, parse_dmy, parse_id, Command, DateError, UsageError};

fn words(list: &[&str]) -> Vec<String> {
    list.iter().map(|w| w.to_string()).collect()
}

fn the_day(year: i32, month: u32, day: u32) -> Date {
    Date::new(year, month, day).unwrap()
}

#[test]
fn parse_dmy_reads_day_month_year() {
    assert_eq!(parse_dmy("5-3-2020"), Ok(the_day(2020, 3, 5)));
    assert_eq!(parse_dmy("05-03-2020"), Ok(the_day(2020, 3, 5)));
    assert_eq!(parse_dmy("31-12-1990"), Ok(the_day(1990, 12, 31)));
    assert_eq!(parse_dmy("29-2-2024"), Ok(the_day(2024, 2, 29)));
    assert_eq!(parse_dmy("1-1-0"), Ok(the_day(0, 1, 1)));
    assert_eq!(parse_dmy("1-1-262142"), Ok(the_day(MAX_YEAR, 1, 1)));
    assert_eq!(parse_dmy("0000000000000000000005-003-02020"), Ok(the_day(2020, 3, 5)));
}

#[test]
fn parse_dmy_takes_a_plus_in_front_of_a_number() {
    assert_eq!(parse_dmy("+5-+3-+2020"), Ok(the_day(2020, 3, 5)));
    assert_eq!(parse_dmy("+-3-2020"), Err(DateError::NotANumber));
    assert_eq!(parse_dmy("++5-3-2020"), Err(DateError::NotANumber));
}

#[test]
fn parse_dmy_does_not_look_behind_the_year() {
    assert_eq!(parse_dmy("5-3-2020-"), Ok(the_day(2020, 3, 5)));
    assert_eq!(parse_dmy("5-3-2020-x"), Ok(the_day(2020, 3, 5)));
    assert_eq!(parse_dmy("5-3-2020-1-2-3"), Ok(the_day(2020, 3, 5)));
}

#[test]
fn parse_dmy_wants_three_parts() {
    assert_eq!(parse_dmy(""), Err(DateError::MissingPart));
    assert_eq!(parse_dmy("5"), Err(DateError::MissingPart));
    assert_eq!(parse_dmy("5-3"), Err(DateError::MissingPart));
    assert_eq!(parse_dmy("x-y"), Err(DateError::MissingPart));
    assert_eq!(parse_dmy("5 3 2020"), Err(DateError::MissingPart));
    assert_eq!(parse_dmy("5/3/2020"), Err(DateError::MissingPart));
}

#[test]
fn parse_dmy_wants_numbers() {
    assert_eq!(parse_dmy("5-3-"), Err(DateError::NotANumber));
    assert_eq!(parse_dmy("--"), Err(DateError::NotANumber));
    assert_eq!(parse_dmy("-3-2020"), Err(DateError::NotANumber));
    assert_eq!(parse_dmy("5--2020"), Err(DateError::NotANumber));
    assert_eq!(parse_dmy("5-3--2020"), Err(DateError::NotANumber));
    assert_eq!(parse_dmy("five-3-2020"), Err(DateError::NotANumber));
    assert_eq!(parse_dmy("5-March-2020"), Err(DateError::NotANumber));
    assert_eq!(parse_dmy("5-3-20x0"), Err(DateError::NotANumber));
    assert_eq!(parse_dmy(" 5-3-2020"), Err(DateError::NotANumber));
    assert_eq!(parse_dmy("5 -3-2020"), Err(DateError::NotANumber));
    assert_eq!(parse_dmy("5-3-2020 "), Err(DateError::NotANumber));
    assert_eq!(parse_dmy("5-3-+"), Err(DateError::NotANumber));
    assert_eq!(parse_dmy("٥-3-2020"), Err(DateError::NotANumber));
}

#[test]
fn parse_dmy_wants_numbers_that_fit() {
    assert_eq!(parse_dmy("4294967295-3-2020"), Err(DateError::NoSuchDay));
    assert_eq!(parse_dmy("4294967296-3-2020"), Err(DateError::NotANumber));
    assert_eq!(parse_dmy("5-4294967295-2020"), Err(DateError::NoSuchDay));
    assert_eq!(parse_dmy("5-4294967296-2020"), Err(DateError::NotANumber));
    assert_eq!(parse_dmy("5-3-2147483647"), Err(DateError::NoSuchDay));
    assert_eq!(parse_dmy("5-3-2147483648"), Err(DateError::NotANumber));
    assert_eq!(parse_dmy("5-3-99999999999999999999999999"), Err(DateError::NotANumber));
}

#[test]
fn parse_dmy_wants_a_day_of_the_calendar() {
    assert_eq!(parse_dmy("29-2-2023"), Err(DateError::NoSuchDay));
    assert_eq!(parse_dmy("31-4-2023"), Err(DateError::NoSuchDay));
    assert_eq!(parse_dmy("0-4-2023"), Err(DateError::NoSuchDay));
    assert_eq!(parse_dmy("1-0-2023"), Err(DateError::NoSuchDay));
    assert_eq!(parse_dmy("1-13-2023"), Err(DateError::NoSuchDay));
    assert_eq!(parse_dmy("1-1-262143"), Err(DateError::NoSuchDay));
    assert_eq!(parse_dmy("2020-3-5"), Err(DateError::NoSuchDay));
}

#[test]
fn parse_id_reads_a_number() {
    assert_eq!(parse_id("0"), Some(0));
    assert_eq!(parse_id("7"), Some(7));
    assert_eq!(parse_id("007"), Some(7));
    assert_eq!(parse_id("+7"), Some(7));
    assert_eq!(parse_id("999"), Some(999));
    assert_eq!(parse_id("1000"), Some(1000));
    assert_eq!(parse_id("4294967295"), Some(u32::MAX));
}

#[test]
fn parse_id_refuses_what_is_no_number() {
    assert_eq!(parse_id(""), None);
    assert_eq!(parse_id("+"), None);
    assert_eq!(parse_id("-7"), None);
    assert_eq!(parse_id("-0"), None);
    assert_eq!(parse_id("7 "), None);
    assert_eq!(parse_id(" 7"), None);
    assert_eq!(parse_id("seven"), None);
    assert_eq!(parse_id("7.0"), None);
    assert_eq!(parse_id("4294967296"), None);
    assert_eq!(parse_id("99999999999999999999"), None);
}

#[test]
fn parse_id_agrees_with_the_standard_library() {
    for text in ["0", "12", "+12", "-12", "", "+", "-", "1 2", "4294967295", "4294967296", "0x10", "１"]
    {
        assert_eq!(parse_id(text), text.parse::<u32>().ok(), "{text:?}");
    }
}

#[test]
fn no_word_behind_the_program_asks_for_help() {
    assert_eq!(parse_args(&words(&["bday"])), Ok(Command::Help));
    assert_eq!(parse_args(&words(&["bday", "help"])), Ok(Command::Help));
    assert_eq!(parse_args(&words(&["bday", "help", "me"])), Ok(Command::Help));
}

#[test]
fn no_words_at_all_are_refused() {
    assert_eq!(parse_args(&Vec::new()), Err(UsageError::NoWords));
}

#[test]
fn list_has_two_names() {
    assert_eq!(parse_args(&words(&["bday", "ls"])), Ok(Command::List));
    assert_eq!(parse_args(&words(&["bday", "list"])), Ok(Command::List));
    assert_eq!(parse_args(&words(&["bday", "list", "all"])), Ok(Command::List));
}

#[test]
fn add_takes_a_name_and_a_date() {
    assert_eq!(
        parse_args(&words(&["bday", "add", "Ada", "10-12-1815"])),
        Ok(Command::Add { name: "Ada".to_string(), bday: the_day(1815, 12, 10) })
    );
    assert_eq!(
        parse_args(&words(&["bday", "add", "Ada Lovelace", "10-12-1815", "more"])),
        Ok(Command::Add { name: "Ada Lovelace".to_string(), bday: the_day(1815, 12, 10) })
    );
    assert_eq!(parse_args(&words(&["bday", "add"])), Err(UsageError::AddWhat));
    assert_eq!(parse_args(&words(&["bday", "add", "Ada"])), Err(UsageError::AddWhat));
}

#[test]
fn add_refuses_a_date_that_is_none() {
    assert_eq!(
        parse_args(&words(&["bday", "add", "Ada", "10-12"])),
        Err(UsageError::BadDate(DateError::MissingPart))
    );
    assert_eq!(
        parse_args(&words(&["bday", "add", "Ada", "10-Dec-1815"])),
        Err(UsageError::BadDate(DateError::NotANumber))
    );
    assert_eq!(
        parse_args(&words(&["bday", "add", "Ada", "31-11-1815"])),
        Err(UsageError::BadDate(DateError::NoSuchDay))
    );
}

#[test]
fn remove_has_two_names_and_takes_an_identifier() {
    assert_eq!(parse_args(&words(&["bday", "rm", "42"])), Ok(Command::Remove { id: 42 }));
    assert_eq!(parse_args(&words(&["bday", "remove", "42"])), Ok(Command::Remove { id: 42 }));
    assert_eq!(parse_args(&words(&["bday", "rm", "42", "43"])), Ok(Command::Remove { id: 42 }));
    assert_eq!(parse_args(&words(&["bday", "rm"])), Err(UsageError::RemoveWhat));
    assert_eq!(parse_args(&words(&["bday", "remove"])), Err(UsageError::RemoveWhat));
    assert_eq!(parse_args(&words(&["bday", "rm", "Ada"])), Err(UsageError::BadId));
    assert_eq!(parse_args(&words(&["bday", "rm", "-1"])), Err(UsageError::BadId));
}

#[test]
fn other_words_are_refused() {
    assert_eq!(parse_args(&words(&["bday", "delete", "42"])), Err(UsageError::UnknownWord));
    assert_eq!(parse_args(&words(&["bday", ""])), Err(UsageError::UnknownWord));
    assert_eq!(parse_args(&words(&["bday", "LS"])), Err(UsageError::UnknownWord));
    assert_eq!(parse_args(&words(&["bday", "--help"])), Err(UsageError::UnknownWord));
}

#[test]
fn exit_code_is_zero_for_a_command_and_one_for_none() {
    assert_eq!(exit_code(&Ok(Command::Help)), 0);
    assert_eq!(exit_code(&Ok(Command::List)), 0);
    assert_eq!(exit_code(&Ok(Command::Remove { id: 1 })), 0);
    assert_eq!(exit_code(&parse_args(&words(&["bday", "add", "Ada", "10-12-1815"]))), 0);
    assert_eq!(exit_code(&Err(UsageError::NoWords)), 1);
    assert_eq!(exit_code(&Err(UsageError::UnknownWord)), 1);
    assert_eq!(exit_code(&Err(UsageError::AddWhat)), 1);
    assert_eq!(exit_code(&Err(UsageError::RemoveWhat)), 1);
    assert_eq!(exit_code(&Err(UsageError::BadId)), 1);
    assert_eq!(exit_code(&Err(UsageError::BadDate(DateError::NoSuchDay))), 1);
    assert_eq!(exit_code(&parse_args(&words(&["bday", "add", "Ada"]))), 1);
}
