//! The order of the register by who celebrates next.
//!
//! Entries are put in order of the days left to their next birthday, the
//! fewest first. Entries with equally many days left keep the order they
//! had before.

use crate::calendar::{Date, MAX_YEAR};
use crate::occurrence::{days_to_next, days_until};
use crate::registry::{birthdays_exist, Bdays, Person};
use vstd::prelude::*;

verus! {

/// What an entry is ordered by on the day `now`: the days left to the next
/// birthday.
pub open spec fn days_left(now: Date, person: Person) -> int {
    days_to_next(now, person.bday)
}

/// Whether no entry of `list` has more days left than one behind it.
pub open spec fn ordered(now: Date, list: Seq<Person>) -> bool {
    forall|i: int, j: int|
        0 <= i < j < list.len() ==> days_left(now, #[trigger] list[i]) <= days_left(
            now,
            #[trigger] list[j],
        )
}

/// The entries of `list` that have `days` days left, in their order.
pub open spec fn with_days_left(now: Date, list: Seq<Person>, days: int) -> Seq<Person> {
    list.filter(|p: Person| days_left(now, p) == days)
}

/// Whether `a` and `b` hold the same entries, and those with equally many
/// days left in the same order.
pub open spec fn same_ties(now: Date, a: Seq<Person>, b: Seq<Person>) -> bool {
    forall|days: int| #[trigger] with_days_left(now, a, days) == with_days_left(now, b, days)
}

/// Whether `after` is `before` put in order: the same entries, the fewest
/// days left first, those with equally many in the order of `before`.
pub open spec fn put_in_order(now: Date, before: Seq<Person>, after: Seq<Person>) -> bool {
    ordered(now, after) && same_ties(now, before, after)
}

/// Putting `person` into an ordered list, behind the entries with fewer days
/// left and ahead of all others, keeps the list ordered, and puts `person`
/// ahead of the entries with equally many days left.
proof fn lemma_insert_ahead(now: Date, list: Seq<Person>, at: int, person: Person)
    requires
        ordered(now, list),
        0 <= at <= list.len(),
        forall|i: int| 0 <= i < at ==> days_left(now, #[trigger] list[i]) < days_left(now, person),
        at < list.len() ==> days_left(now, person) <= days_left(now, list[at]),
    ensures
        ordered(now, list.insert(at, person)),
        same_ties(now, list.insert(at, person), seq![person] + list),
{
    let longer = list.insert(at, person);
    let ahead = list.subrange(0, at);
    let behind = list.subrange(at, list.len() as int);
    assert forall|i: int, j: int| 0 <= i < j < longer.len() implies days_left(
        now,
        #[trigger] longer[i],
    ) <= days_left(now, #[trigger] longer[j]) by {
        // Each of the two is `person` or an entry of `list`, and entries of
        // `list` stand in `longer` in their order.
        let from_i = if i < at { i } else { i - 1 };
        let from_j = if j < at { j } else { j - 1 };
        assert(i != at ==> longer[i] == list[from_i]);
        assert(j != at ==> longer[j] == list[from_j]);
    }
    assert forall|days: int| #[trigger]
        with_days_left(now, longer, days) == with_days_left(now, seq![person] + list, days) by {
        let pred = |p: Person| days_left(now, p) == days;
        let one = seq![person];
        assert(list == ahead + behind);
        assert(longer == ahead + one + behind);
        Seq::filter_distributes_over_add(ahead, behind, pred);
        Seq::filter_distributes_over_add(ahead + one, behind, pred);
        Seq::filter_distributes_over_add(ahead, one, pred);
        Seq::filter_distributes_over_add(one, list, pred);
        if days_left(now, person) == days {
            // None of the entries ahead has as many days left.
            if ahead.filter(pred).len() > 0 {
                let found = ahead.filter(pred)[0];
                ahead.lemma_filter_pred(pred, 0);
                ahead.lemma_filter_contains_rev(pred, found);
                let i = choose|i: int| 0 <= i < ahead.len() && ahead[i] == found;
                assert(ahead[i] == list[i]);
            }
        } else {
            // `person` is not among the entries with that many days left.
            if one.filter(pred).len() > 0 {
                let found = one.filter(pred)[0];
                one.lemma_filter_pred(pred, 0);
                one.lemma_filter_contains_rev(pred, found);
            }
        }
        assert(one.filter(pred) + ahead.filter(pred) + behind.filter(pred) == one.filter(pred) + (
        ahead.filter(pred) + behind.filter(pred)));
    }
}

/// An order is settled by the entries and the order within ties: two
/// ordered lists that agree in both are the same list.
pub proof fn lemma_order_is_unique(now: Date, a: Seq<Person>, b: Seq<Person>)
    requires
        ordered(now, a),
        ordered(now, b),
        same_ties(now, a, b),
    ensures
        a == b,
    decreases a.len(),
{
    if a.len() == 0 {
        if b.len() > 0 {
            let days = days_left(now, b[0]);
            let pred = |p: Person| days_left(now, p) == days;
            b.lemma_filter_contains(pred, 0);
            a.lemma_filter_len(pred);
            assert(with_days_left(now, a, days) == with_days_left(now, b, days));
        }
    } else {
        let x = a.last();
        let most = days_left(now, x);
        let has_most = |p: Person| days_left(now, p) == most;
        a.lemma_filter_contains(has_most, a.len() - 1);
        assert(with_days_left(now, a, most) == with_days_left(now, b, most));
        b.lemma_filter_len(has_most);
        b.lemma_filter_contains_rev(has_most, x);
        let y = b.last();
        let most_b = days_left(now, y);
        let has_most_b = |p: Person| days_left(now, p) == most_b;
        b.lemma_filter_contains(has_most_b, b.len() - 1);
        assert(with_days_left(now, a, most_b) == with_days_left(now, b, most_b));
        a.lemma_filter_contains_rev(has_most_b, y);
        assert(most == most_b) by {
            // Each list holds the last entry of the other, and none of its
            // entries has more days left than its own last one.
            let i = choose|i: int| 0 <= i < b.len() && b[i] == x;
            assert(days_left(now, b[i]) <= days_left(now, b[b.len() - 1]));
            let j = choose|j: int| 0 <= j < a.len() && a[j] == y;
            assert(days_left(now, a[j]) <= days_left(now, a[a.len() - 1]));
        }
        let shorter_a = a.drop_last();
        let shorter_b = b.drop_last();
        assert(a == shorter_a.push(x));
        assert(b == shorter_b.push(y));
        assert forall|days: int| #[trigger]
            with_days_left(now, shorter_a, days) == with_days_left(now, shorter_b, days) by {
            let pred = |p: Person| days_left(now, p) == days;
            shorter_a.lemma_filter_push(x, pred);
            shorter_b.lemma_filter_push(y, pred);
            assert(with_days_left(now, a, days) == with_days_left(now, b, days));
            if days == most {
                let kept_a = shorter_a.filter(pred);
                let kept_b = shorter_b.filter(pred);
                assert(kept_a.push(x) == kept_b.push(y));
                assert(kept_a == kept_a.push(x).drop_last());
                assert(kept_b == kept_b.push(y).drop_last());
            }
        }
        assert(x == y) by {
            let pred = |p: Person| days_left(now, p) == most;
            shorter_a.lemma_filter_push(x, pred);
            shorter_b.lemma_filter_push(y, pred);
            assert(with_days_left(now, a, most) == with_days_left(now, b, most));
            assert(shorter_a.filter(pred).push(x).last() == x);
            assert(shorter_b.filter(pred).push(y).last() == y);
        }
        lemma_order_is_unique(now, shorter_a, shorter_b);
    }
}

/// Putting a list in order has one outcome only.
pub proof fn lemma_put_in_order_is_unique(
    now: Date,
    before: Seq<Person>,
    a: Seq<Person>,
    b: Seq<Person>,
)
    requires
        put_in_order(now, before, a),
        put_in_order(now, before, b),
    ensures
        a == b,
{
    assert forall|days: int| #[trigger]
        with_days_left(now, a, days) == with_days_left(now, b, days) by {
        assert(with_days_left(now, before, days) == with_days_left(now, a, days));
        assert(with_days_left(now, before, days) == with_days_left(now, b, days));
    }
    lemma_order_is_unique(now, a, b);
}

/// A list that is in order stays as it is when it is put in order.
pub proof fn lemma_ordered_stays(now: Date, list: Seq<Person>, again: Seq<Person>)
    requires
        ordered(now, list),
        put_in_order(now, list, again),
    ensures
        again == list,
{
    lemma_order_is_unique(now, list, again);
}

/// Putting a list in order twice gives what putting it in order once gives.
pub proof fn lemma_put_in_order_twice(
    now: Date,
    before: Seq<Person>,
    once: Seq<Person>,
    twice: Seq<Person>,
)
    requires
        put_in_order(now, before, once),
        put_in_order(now, once, twice),
    ensures
        twice == once,
{
    lemma_ordered_stays(now, once, twice);
}

/// What is kept of a list holds each entry that is to be kept as often as
/// the list, and no other.
proof fn lemma_kept_count(list: Seq<Person>, keep: spec_fn(Person) -> bool, person: Person)
    ensures
        list.filter(keep).to_multiset().count(person) == if keep(person) {
            list.to_multiset().count(person)
        } else {
            0
        },
    decreases list.len(),
{
    broadcast use vstd::multiset::group_multiset_axioms;

    reveal(Seq::filter);
    if list.len() == 0 {
        vstd::seq_lib::to_multiset_contains(list, person);
    } else {
        let shorter = list.drop_last();
        lemma_kept_count(shorter, keep, person);
        assert(list == shorter.push(list.last()));
        vstd::seq_lib::to_multiset_build(shorter, list.last());
        if keep(list.last()) {
            vstd::seq_lib::to_multiset_build(shorter.filter(keep), list.last());
        }
    }
}

/// Lists that agree in the entries with each number of days left hold the
/// same entries, each as often as the other.
pub proof fn lemma_same_ties_same_entries(now: Date, a: Seq<Person>, b: Seq<Person>)
    requires
        same_ties(now, a, b),
    ensures
        a.to_multiset() == b.to_multiset(),
        a.len() == b.len(),
{
    assert forall|person: Person| a.to_multiset().count(person) == b.to_multiset().count(
        person,
    ) by {
        let days = days_left(now, person);
        let keep = |p: Person| days_left(now, p) == days;
        lemma_kept_count(a, keep, person);
        lemma_kept_count(b, keep, person);
        assert(with_days_left(now, a, days) == with_days_left(now, b, days));
    }
    vstd::seq_lib::to_multiset_len(a);
    vstd::seq_lib::to_multiset_len(b);
}

impl Bdays {
    /// Puts the register in the order of who celebrates next after `now`.
    pub fn sort(&mut self, now: Date)
        requires
            old(self).wf(),
            now.wf(),
            now.year < MAX_YEAR,
        ensures
            put_in_order(now, old(self).list@, final(self).list@),
            final(self).list@.to_multiset() == old(self).list@.to_multiset(),
            final(self).index == old(self).index,
            final(self).wf(),
    {
        let ghost before = self.list@;
        let mut sorted: Vec<Person> = Vec::new();
        let mut left: Vec<i64> = Vec::new();
        assert(before.subrange(before.len() as int, before.len() as int) == sorted@);
        while self.list.len() > 0
            invariant
                now.wf(),
                now.year < MAX_YEAR,
                birthdays_exist(before),
                self.index == old(self).index,
                self.list@.len() <= before.len(),
                self.list@ == before.subrange(0, self.list@.len() as int),
                sorted@.len() + self.list@.len() == before.len(),
                left@.len() == sorted@.len(),
                forall|i: int|
                    0 <= i < sorted@.len() ==> #[trigger] left@[i] == days_left(now, sorted@[i]),
                birthdays_exist(sorted@),
                ordered(now, sorted@),
                same_ties(
                    now,
                    sorted@,
                    before.subrange(self.list@.len() as int, before.len() as int),
                ),
            decreases self.list@.len(),
        {
            let ghost rest = before.subrange(self.list@.len() as int, before.len() as int);
            let person = self.list.pop().unwrap();
            let days = days_until(now, person.bday);
            let mut at: usize = 0;
            while at < left.len() && left[at] < days
                invariant
                    at <= left@.len(),
                    forall|i: int| 0 <= i < at ==> #[trigger] left@[i] < days,
                decreases left@.len() - at,
            {
                at = at + 1;
            }
            proof {
                assert forall|i: int| 0 <= i < at implies days_left(now, #[trigger] sorted@[i])
                    < days_left(now, person) by {
                    assert(left@[i] < days);
                }
                lemma_insert_ahead(now, sorted@, at as int, person);
                assert(before.subrange(self.list@.len() as int, before.len() as int) == seq![
                    person,
                ] + rest);
                assert forall|d: int| #[trigger]
                    with_days_left(now, sorted@.insert(at as int, person), d) == with_days_left(
                        now,
                        seq![person] + rest,
                        d,
                    ) by {
                    let pred = |p: Person| days_left(now, p) == d;
                    assert(with_days_left(now, sorted@, d) == with_days_left(now, rest, d));
                    assert(with_days_left(now, sorted@.insert(at as int, person), d)
                        == with_days_left(now, seq![person] + sorted@, d));
                    Seq::filter_distributes_over_add(seq![person], sorted@, pred);
                    Seq::filter_distributes_over_add(seq![person], rest, pred);
                }
            }
            sorted.insert(at, person);
            left.insert(at, days);
        }
        proof {
            lemma_same_ties_same_entries(now, before, sorted@);
        }
        self.list = sorted;
    }
}

} // verus!
