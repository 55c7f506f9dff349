use bday::calendar::{Date, MAX_YEAR};
use bday::listing::Row;
use bday::occurrence::{age_at_next, days_until};
use bday::registry::{Bdays, Person};
use bday::text::day_and_month;
use chrono::{Datelike, Utc};

fn dmy(day: u32, month: u32, year: i32) -> Date {
    Date::new(year, month, day).unwrap()
}

fn register() -> Bdays {
    Bdays::from_list(vec![
        Person::new("Grace".to_string(), dmy(9, 12, 1906), 17),
        Person::new("Ada".to_string(), dmy(10, 3, 1815), 42),
        Person::new("Alan".to_string(), dmy(20, 3, 1912), 7),
    ])
}

#[test]
fn rows_describe_the_entries_in_their_order() {
    let bdays = register();
    let rows = bdays.rows(dmy(15, 3, 2023));
    assert_eq!(
        rows,
        vec![
            Row {
                id: 17,
                name: "Grace".to_string(),
                birthday: "09 December".to_string(),
                days: 269,
                age: 117,
            },
            Row {
                id: 42,
                name: "Ada".to_string(),
                birthday: "10 March".to_string(),
                days: 361,
                age: 209,
            },
            Row {
                id: 7,
                name: "Alan".to_string(),
                birthday: "20 March".to_string(),
                days: 5,
                age: 111,
            },
        ]
    );
    assert_eq!(bdays.list.len(), 3);
    assert_eq!(bdays.list[0].name, "Grace");
}

#[test]
fn rows_of_an_empty_register_are_none() {
    assert!(Bdays::new().rows(dmy(15, 3, 2023)).is_empty());
}

#[test]
fn listing_orders_and_describes() {
    let mut bdays = register();
    let rows = bdays.listing(dmy(15, 3, 2023)).unwrap();
    let names: Vec<&str> = rows.iter().map(|r| r.name.as_str()).collect();
    assert_eq!(names, ["Alan", "Grace", "Ada"]);
    let days: Vec<i64> = rows.iter().map(|r| r.days).collect();
    assert_eq!(days, [5, 269, 361]);
    let kept: Vec<&str> = bdays.list.iter().map(|p| p.name.as_str()).collect();
    assert_eq!(kept, ["Alan", "Grace", "Ada"]);
    assert_eq!(bdays.index, 4);
}

#[test]
fn listing_today_is_the_listing_of_the_day_it_is() {
    let before = Utc::now().date_naive();
    let mut bdays = register();
    let (now, rows) = bdays.listing_today().unwrap();
    let after = Utc::now().date_naive();
    let read = chrono::NaiveDate::from_ymd_opt(now.year, now.month, now.day).unwrap();
    assert!(before <= read && read <= after);
    assert_eq!(now, dmy(read.day(), read.month(), read.year()));
    let mut again = register();
    assert_eq!(Some(rows.clone()), again.listing(now));
    assert_eq!(bdays.list, again.list);
    for (row, person) in rows.iter().zip(bdays.list.iter()) {
        assert_eq!(row.id, person.id);
        assert_eq!(row.name, person.name);
        assert_eq!(row.birthday, day_and_month(&person.bday));
        assert_eq!(row.days, days_until(now, person.bday));
        assert_eq!(row.age, age_at_next(now, person.bday));
    }
}

#[test]
fn listing_in_the_last_year_is_none() {
    let mut bdays = register();
    let before = bdays.list.clone();
    assert_eq!(bdays.listing(dmy(1, 1, MAX_YEAR)), None);
    assert_eq!(bdays.listing(dmy(31, 12, MAX_YEAR)), None);
    assert_eq!(bdays.list, before);
    assert_eq!(bdays.index, 4);
    assert!(bdays.listing(dmy(31, 12, MAX_YEAR - 1)).is_some());
}

#[test]
fn listing_of_an_empty_register_is_empty_on_every_day() {
    for now in [dmy(15, 3, 2023), dmy(1, 1, MAX_YEAR), dmy(31, 12, MAX_YEAR)] {
        let mut bdays = Bdays::new();
        assert_eq!(bdays.listing(now), Some(Vec::new()));
        assert!(bdays.list.is_empty());
        assert_eq!(bdays.index, 1);
    }
}

#[test]
fn listing_today_of_an_empty_register_is_empty() {
    let mut bdays = Bdays::new();
    let (now, rows) = bdays.listing_today().unwrap();
    assert!(Date::new(now.year, now.month, now.day).is_some());
    assert!(rows.is_empty());
    assert!(bdays.list.is_empty());
    assert_eq!(bdays.index, 1);
}
