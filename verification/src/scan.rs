//! Text, character by character: where a character stands, whether a part
//! of a text is a given word, and numbers in decimal digits.

use vstd::prelude::*;
use vstd::string::StringExecFns;

verus! {

/// The character that writes the decimal digit `value`.
pub open spec fn digit(value: int) -> char {
    ('0' as int + value) as char
}

/// Whether `c` is a decimal digit.
pub open spec fn is_digit(c: char) -> bool {
    '0' as int <= c as int <= '9' as int
}

/// The value of the decimal digit `c`.
pub open spec fn digit_value(c: char) -> int {
    c as int - '0' as int
}

/// Whether `text` holds decimal digits only.
pub open spec fn all_digits(text: Seq<char>) -> bool {
    forall|i: int| 0 <= i < text.len() ==> is_digit(#[trigger] text[i])
}

/// The number that the decimal digits `text` write; 0 where there are none.
pub open spec fn number(text: Seq<char>) -> nat
    decreases text.len(),
{
    if text.len() == 0 {
        0
    } else {
        (number(text.drop_last()) * 10 + digit_value(text.last())) as nat
    }
}

/// `value` in decimal digits, with zeros in front where it has fewer than
/// `width` of them.
pub open spec fn padded(value: nat, width: nat) -> Seq<char>
    decreases value, width,
{
    if value < 10 && width <= 1 {
        seq![digit(value as int)]
    } else {
        padded(value / 10, if width > 0 { (width - 1) as nat } else { 0 }).push(
            digit((value % 10) as int),
        )
    }
}

/// The number that `text` writes, if it is made of digits, at least one,
/// and the number is not above `limit`.
pub open spec fn bounded_number(text: Seq<char>, limit: nat) -> Option<nat> {
    if text.len() > 0 && all_digits(text) && number(text) <= limit {
        Some(number(text))
    } else {
        None
    }
}

/// The number that `text` writes with a sign in front or without one, if
/// it is not further from 0 than `limit`.
pub open spec fn signed_number(text: Seq<char>, limit: nat) -> Option<int> {
    if text.len() > 0 && text[0] == '-' {
        match bounded_number(text.drop_first(), limit) {
            Some(n) => Some(-n),
            None => None,
        }
    } else if text.len() > 0 && text[0] == '+' {
        match bounded_number(text.drop_first(), limit) {
            Some(n) => Some(n as int),
            None => None,
        }
    } else {
        match bounded_number(text, limit) {
            Some(n) => Some(n as int),
            None => None,
        }
    }
}

/// What `padded` writes are digits, at least one and at least `width`, and
/// they write `value`.
pub proof fn lemma_padded(value: nat, width: nat)
    ensures
        all_digits(padded(value, width)),
        padded(value, width).len() >= 1,
        padded(value, width).len() >= width,
        number(padded(value, width)) == value,
    decreases value, width,
{
    let text = padded(value, width);
    if value < 10 && width <= 1 {
        assert(number(text.drop_last()) == 0);
    } else {
        let shorter = padded(value / 10, if width > 0 { (width - 1) as nat } else { 0 });
        lemma_padded(value / 10, if width > 0 { (width - 1) as nat } else { 0 });
        assert(text.drop_last() =~= shorter);
    }
}

/// Numbers below 100 are written in two digits where two are asked for.
pub proof fn lemma_padded_two(value: nat)
    requires
        value < 100,
    ensures
        padded(value, 2).len() == 2,
{
    reveal_with_fuel(padded, 3);
}

/// More digits behind a number do not make it smaller.
pub proof fn lemma_number_grows(text: Seq<char>, len: int)
    requires
        all_digits(text),
        0 <= len <= text.len(),
    ensures
        number(text.take(len)) <= number(text),
    decreases text.len(),
{
    if len == text.len() {
        assert(text.take(len) =~= text);
    } else {
        lemma_number_grows(text.drop_last(), len);
        assert(text.drop_last().take(len) =~= text.take(len));
    }
}

/// The characters of `s`, one by one.
pub fn chars_of(s: &str) -> (r: Vec<char>)
    ensures
        r@ == s@,
{
    let mut r: Vec<char> = Vec::new();
    for c in it: s.chars()
        invariant
            r@ == it.seq().take(it.index() as int),
    {
        r.push(c);
    }
    r
}

/// The place of the first `c` in `text` at or behind `from`; the length of
/// `text` if there is none.
pub(crate) fn find(text: &Vec<char>, from: usize, c: char) -> (at: usize)
    requires
        from <= text@.len(),
    ensures
        from <= at <= text@.len(),
        forall|i: int| from <= i < at ==> text@[i] != c,
        at < text@.len() ==> text@[at as int] == c,
{
    let mut at = from;
    while at < text.len() && text[at] != c
        invariant
            from <= at <= text@.len(),
            forall|i: int| from <= i < at ==> text@[i] != c,
        decreases text@.len() - at,
    {
        at = at + 1;
    }
    at
}

/// The place behind the last `c` in `text`; 0 if there is none.
pub(crate) fn find_last(text: &Vec<char>, c: char) -> (behind: usize)
    ensures
        behind <= text@.len(),
        forall|i: int| behind <= i < text@.len() ==> text@[i] != c,
        behind > 0 ==> text@[behind - 1] == c,
{
    let mut behind = text.len();
    while behind > 0 && text[behind - 1] != c
        invariant
            behind <= text@.len(),
            forall|i: int| behind <= i < text@.len() ==> text@[i] != c,
        decreases behind,
    {
        behind = behind - 1;
    }
    behind
}

/// Whether `text` holds `word` from `from` up to `to`.
pub(crate) fn holds(text: &Vec<char>, from: usize, to: usize, word: &Vec<char>) -> (r: bool)
    requires
        from <= to <= text@.len(),
    ensures
        r == (text@.subrange(from as int, to as int) == word@),
{
    if to - from != word.len() {
        return false;
    }
    let mut i: usize = 0;
    while i < word.len()
        invariant
            from <= to <= text@.len(),
            to - from == word@.len(),
            i <= word@.len(),
            forall|k: int| 0 <= k < i ==> text@[from + k] == word@[k],
        decreases word@.len() - i,
    {
        if text[from + i] != word[i] {
            return false;
        }
        i = i + 1;
    }
    assert(text@.subrange(from as int, to as int) =~= word@);
    true
}

/// The number that `text` writes from `from` up to `to`, if that part is
/// made of digits, at least one, and the number is not above `limit`.
pub(crate) fn read_number(text: &Vec<char>, from: usize, to: usize, limit: u64) -> (r: Option<u64>)
    requires
        from <= to <= text@.len(),
        limit <= u32::MAX,
    ensures
        r == match bounded_number(text@.subrange(from as int, to as int), limit as nat) {
            Some(n) => Some(n as u64),
            None => None,
        },
{
    let ghost part = text@.subrange(from as int, to as int);
    if from == to {
        return None;
    }
    let mut value: u64 = 0;
    let mut i = from;
    while i < to
        invariant
            from <= i <= to <= text@.len(),
            limit <= u32::MAX,
            part == text@.subrange(from as int, to as int),
            all_digits(part.take(i - from)),
            value == number(part.take(i - from)),
            value <= limit,
        decreases to - i,
    {
        let c = text[i];
        if c < '0' || c > '9' {
            assert(!is_digit(part[i - from]));
            return None;
        }
        let ghost longer = part.take(i - from + 1);
        assert(longer.drop_last() =~= part.take(i - from));
        assert(all_digits(longer)) by {
            assert forall|k: int| 0 <= k < longer.len() implies is_digit(#[trigger] longer[k]) by {
                if k < i - from {
                }
            }
        }
        value = value * 10 + (c as u64 - '0' as u64);
        if value > limit {
            proof {
                if all_digits(part) {
                    lemma_number_grows(part, i - from + 1);
                }
            }
            return None;
        }
        i = i + 1;
    }
    assert(part.take(to - from) =~= part);
    Some(value)
}

/// The number that `text` writes from `from` up to `to`, with a sign in
/// front or without one, if it is not further from 0 than `limit`.
pub(crate) fn read_signed(text: &Vec<char>, from: usize, to: usize, limit: u64) -> (r: Option<i64>)
    requires
        from <= to <= text@.len(),
        limit <= u32::MAX,
    ensures
        r == match signed_number(text@.subrange(from as int, to as int), limit as nat) {
            Some(n) => Some(n as i64),
            None => None,
        },
{
    let ghost part = text@.subrange(from as int, to as int);
    if from < to && (text[from] == '-' || text[from] == '+') {
        assert(part.drop_first() =~= text@.subrange(from + 1, to as int));
        match read_number(text, from + 1, to, limit) {
            Some(n) => if text[from] == '-' {
                Some(0 - n as i64)
            } else {
                Some(n as i64)
            },
            None => None,
        }
    } else {
        match read_number(text, from, to, limit) {
            Some(n) => Some(n as i64),
            None => None,
        }
    }
}

/// The text of the decimal digit `value`.
pub(crate) fn digit_text(value: u32) -> (r: &'static str)
    requires
        value < 10,
    ensures
        r@ == seq![digit(value as int)],
{
    proof {
        reveal_strlit("0");
        reveal_strlit("1");
        reveal_strlit("2");
        reveal_strlit("3");
        reveal_strlit("4");
        reveal_strlit("5");
        reveal_strlit("6");
        reveal_strlit("7");
        reveal_strlit("8");
        reveal_strlit("9");
    }
    let r = if value == 0 {
        "0"
    } else if value == 1 {
        "1"
    } else if value == 2 {
        "2"
    } else if value == 3 {
        "3"
    } else if value == 4 {
        "4"
    } else if value == 5 {
        "5"
    } else if value == 6 {
        "6"
    } else if value == 7 {
        "7"
    } else if value == 8 {
        "8"
    } else {
        "9"
    };
    r
}

/// Writes `value` behind `out`, in decimal digits, with zeros in front
/// where it has fewer than `width` of them.
pub(crate) fn push_padded(out: &mut String, value: u32, width: u32)
    ensures
        final(out)@ == old(out)@ + padded(value as nat, width as nat),
    decreases value, width,
{
    if value < 10 && width <= 1 {
        out.append(digit_text(value));
    } else {
        push_padded(out, value / 10, if width > 0 { width - 1 } else { 0 });
        out.append(digit_text(value % 10));
    }
}

} // verus!
