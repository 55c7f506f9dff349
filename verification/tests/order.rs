use bday::calendar::Date;
use bday::occurrence::days_until;
use bday::registry::{Bdays, Person};

fn on(year: i32, month: u32, day: u32) -> Date {
    Date::new(year, month, day).unwrap()
}

fn entry(name: &str, month: u32, day: u32) -> Person {
    Person::new(name.to_string(), on(1990, month, day), 0)
}

fn order_of(bdays: &Bdays) -> Vec<String> {
    bdays.list.iter().map(|p| p.name.clone()).collect()
}

#[test]
fn sort_puts_the_next_birthday_first() {
    let now = on(2023, 3, 15);
    let mut bdays = Bdays::from_list(vec![
        entry("january", 1, 5),
        entry("today", 3, 15),
        entry("december", 12, 24),
        entry("tomorrow", 3, 16),
        entry("yesterday", 3, 14),
        entry("april", 4, 1),
    ]);
    bdays.sort(now);
    assert_eq!(
        order_of(&bdays),
        ["tomorrow", "april", "december", "january", "yesterday", "today"]
    );
    assert_eq!(bdays.index, 7);
}

#[test]
fn sort_keeps_the_order_of_equal_days() {
    let now = on(2023, 3, 15);
    let mut bdays = Bdays::from_list(vec![
        Person::new("c".to_string(), on(1990, 6, 1), 3),
        Person::new("a1".to_string(), on(1980, 4, 1), 1),
        Person::new("b".to_string(), on(1970, 5, 1), 2),
        Person::new("a2".to_string(), on(2001, 4, 1), 1),
        Person::new("a3".to_string(), on(1999, 4, 1), 9),
        Person::new("c2".to_string(), on(1991, 6, 1), 3),
    ]);
    bdays.sort(now);
    assert_eq!(order_of(&bdays), ["a1", "a2", "a3", "b", "c", "c2"]);
}

#[test]
fn sort_twice_is_sort_once() {
    let now = on(2024, 2, 29);
    let mut bdays = Bdays::from_list(vec![
        entry("e", 2, 28),
        Person::new("a".to_string(), on(1992, 2, 29), 0),
        entry("d", 3, 1),
        entry("b", 12, 31),
        entry("c", 3, 1),
        entry("f", 1, 1),
        Person::new("g".to_string(), on(2000, 2, 29), 0),
    ]);
    bdays.sort(now);
    let once = bdays.list.clone();
    assert_eq!(order_of(&bdays), ["d", "c", "b", "f", "e", "a", "g"]);
    bdays.sort(now);
    assert_eq!(bdays.list, once);
    bdays.sort(now);
    assert_eq!(bdays.list, once);
}

#[test]
fn sort_leaves_an_ordered_register_as_it_is() {
    let now = on(2023, 3, 15);
    let list = vec![entry("a", 3, 16), entry("b", 3, 16), entry("c", 7, 1), entry("d", 3, 15)];
    let mut bdays = Bdays::from_list(list.clone());
    bdays.sort(now);
    assert_eq!(bdays.list, list);
}

#[test]
fn sort_keeps_the_entries() {
    let now = on(2023, 8, 20);
    let mut list = Vec::new();
    for i in 0..60u32 {
        let month = (i * 7) % 12 + 1;
        let day = (i * 11) % 28 + 1;
        list.push(Person::new(format!("p{i}"), on(1950 + i as i32, month, day), i % 5));
    }
    let mut bdays = Bdays::from_list(list.clone());
    bdays.sort(now);
    assert_eq!(bdays.list.len(), list.len());
    for p in &list {
        assert_eq!(bdays.list.iter().filter(|q| *q == p).count(), 1);
    }
    for pair in bdays.list.windows(2) {
        assert!(days_until(now, pair[0].bday) <= days_until(now, pair[1].bday));
    }
    let mut expected = list.clone();
    expected.sort_by_key(|p| days_until(now, p.bday));
    assert_eq!(bdays.list, expected);
}

#[test]
fn sort_of_nothing_and_of_one() {
    let now = on(2023, 8, 20);
    let mut empty = Bdays::new();
    empty.sort(now);
    assert!(empty.list.is_empty());
    assert_eq!(empty.index, 1);
    let mut one = Bdays::from_list(vec![entry("a", 1, 1)]);
    one.sort(now);
    assert_eq!(order_of(&one), ["a"]);
}
