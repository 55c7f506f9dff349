//! The register of people: who is in it, how an entry gets its identifier,
//! and how entries are added and removed.

use crate::calendar::Date;
use vstd::prelude::*;

verus! {

/// Identifiers are below this number.
pub const ID_LIMIT: u32 = 1000;

/// One entry of the register. Only the month and the day of `bday` recur;
/// its year is the year of birth.
#[derive(Clone, Debug, PartialEq, Eq)]
pub struct Person {
    pub name: String,
    pub bday: Date,
    pub id: u32,
}

impl Person {
    /// The entry with this name, birthday and identifier.
    pub fn new(name: String, bday: Date, id: u32) -> (r: Person)
        ensures
            r == (Person { name, bday, id }),
    {
        Person { name, bday, id }
    }
}

/// The register: the entries in the order in which they are kept, and the
/// counter from which the next identifier is made.
#[derive(Clone, Debug)]
pub struct Bdays {
    pub list: Vec<Person>,
    pub index: u32,
}

/// Whether every birthday in `list` is a day of the calendar.
pub open spec fn birthdays_exist(list: Seq<Person>) -> bool {
    forall|i: int| 0 <= i < list.len() ==> (#[trigger] list[i]).bday.wf()
}

/// Whether `list` has an entry with the identifier `id`.
pub open spec fn has_id(list: Seq<Person>, id: u32) -> bool {
    exists|i: int| 0 <= i < list.len() && (#[trigger] list[i]).id == id
}

/// Whether the entry at `at` is the first of `list` with the identifier `id`.
pub open spec fn is_first_with_id(list: Seq<Person>, id: u32, at: int) -> bool {
    &&& 0 <= at < list.len()
    &&& list[at].id == id
    &&& forall|i: int| 0 <= i < at ==> (#[trigger] list[i]).id != id
}

/// The place of the first entry of `list` with the identifier `id`; the
/// length of `list` if there is none.
pub open spec fn first_with_id(list: Seq<Person>, id: u32) -> int
    decreases list.len(),
{
    if list.len() == 0 || list[0].id == id {
        0
    } else {
        1 + first_with_id(list.drop_first(), id)
    }
}

/// `list` without its first entry with the identifier `id`; `list` itself
/// if there is none. Other entries with that identifier stay.
pub open spec fn without_first(list: Seq<Person>, id: u32) -> Seq<Person> {
    if has_id(list, id) {
        list.remove(first_with_id(list, id))
    } else {
        list
    }
}

/// The identifier made from the counter and a random number: their sum,
/// reduced to what is below [`ID_LIMIT`].
pub open spec fn assigned_id(index: u32, random: u32) -> int {
    (index + random) % (ID_LIMIT as int)
}

/// `first_with_id` finds an entry exactly when there is one, and then it is
/// the first.
pub proof fn lemma_first_with_id(list: Seq<Person>, id: u32)
    ensures
        0 <= first_with_id(list, id) <= list.len(),
        has_id(list, id) <==> first_with_id(list, id) < list.len(),
        has_id(list, id) ==> is_first_with_id(list, id, first_with_id(list, id)),
    decreases list.len(),
{
    if list.len() == 0 || list[0].id == id {
    } else {
        let rest = list.drop_first();
        lemma_first_with_id(rest, id);
        let at = first_with_id(rest, id);
        if has_id(list, id) {
            let i = choose|i: int| 0 <= i < list.len() && (#[trigger] list[i]).id == id;
            assert(rest[i - 1].id == id);
        }
        if has_id(rest, id) {
            assert forall|i: int| 0 <= i < at + 1 implies (#[trigger] list[i]).id != id by {
                if i > 0 {
                    assert(list[i] == rest[i - 1]);
                }
            }
        }
    }
}

/// Only one place can hold the first entry with a given identifier.
pub proof fn lemma_first_with_id_unique(list: Seq<Person>, id: u32, at: int)
    requires
        is_first_with_id(list, id, at),
    ensures
        has_id(list, id),
        first_with_id(list, id) == at,
{
    lemma_first_with_id(list, id);
}

/// The identifier made from the counter `index` and the random number
/// `random`.
pub fn assign_id(index: u32, random: u32) -> (id: u32)
    ensures
        id == assigned_id(index, random),
        id < ID_LIMIT,
{
    let sum: u64 = index as u64 + random as u64;
    (sum % (ID_LIMIT as u64)) as u32
}

/// Calls rand: `rand::random::<u32>()`. Nothing is claimed of the number
/// that it gives.
#[verifier::external_body]
fn random_number() -> (r: u32) {
    rand::random::<u32>()
}

impl Bdays {
    /// Whether the register is in order: every birthday is a day of the
    /// calendar, and the counter is ahead of the number of entries.
    pub open spec fn wf(&self) -> bool {
        &&& birthdays_exist(self.list@)
        &&& self.list@.len() < self.index
    }

    /// The empty register.
    pub fn new() -> (r: Bdays)
        ensures
            r.list@ == Seq::<Person>::empty(),
            r.index == 1,
            r.wf(),
    {
        Bdays { list: Vec::new(), index: 1 }
    }

    /// The register that holds `list`, with the counter one ahead of the
    /// number of entries.
    pub fn from_list(list: Vec<Person>) -> (r: Bdays)
        requires
            birthdays_exist(list@),
            list@.len() < u32::MAX,
        ensures
            r.list == list,
            r.index == list@.len() + 1,
            r.wf(),
    {
        let index: u32 = list.len() as u32 + 1;
        Bdays { list, index }
    }

    /// Adds an entry at the end, with the identifier made from the counter
    /// and `random`, and moves the counter on by one. Returns the
    /// identifier. Nothing is done about an identifier that is in use.
    pub fn add(&mut self, name: String, bday: Date, random: u32) -> (id: u32)
        requires
            old(self).wf(),
            bday.wf(),
            old(self).index < u32::MAX,
        ensures
            id == assigned_id(old(self).index, random),
            final(self).list@ == old(self).list@.push(Person { name, bday, id }),
            final(self).index == old(self).index + 1,
            final(self).wf(),
    {
        let id = assign_id(self.index, random);
        self.index = self.index + 1;
        self.list.push(Person::new(name, bday, id));
        id
    }

    /// Adds an entry at the end, with the identifier made from the counter
    /// and a random number, and moves the counter on by one. Returns the
    /// identifier, which may be any below [`ID_LIMIT`].
    pub fn add_random(&mut self, name: String, bday: Date) -> (id: u32)
        requires
            old(self).wf(),
            bday.wf(),
            old(self).index < u32::MAX,
        ensures
            id < ID_LIMIT,
            final(self).list@ == old(self).list@.push(Person { name, bday, id }),
            final(self).index == old(self).index + 1,
            final(self).wf(),
    {
        let random = random_number();
        self.add(name, bday, random)
    }

    /// Removes the first entry with the identifier `id` and says whether
    /// there was one. Without one the register stays as it is.
    pub fn remove(&mut self, id: u32) -> (found: bool)
        requires
            old(self).wf(),
        ensures
            found == has_id(old(self).list@, id),
            final(self).list@ == without_first(old(self).list@, id),
            final(self).index == old(self).index,
            final(self).wf(),
    {
        let mut at: usize = 0;
        while at < self.list.len() && self.list[at].id != id
            invariant
                at <= self.list@.len(),
                forall|i: int| 0 <= i < at ==> (#[trigger] self.list@[i]).id != id,
            decreases self.list@.len() - at,
        {
            at = at + 1;
        }
        if at < self.list.len() {
            proof {
                lemma_first_with_id_unique(self.list@, id, at as int);
            }
            self.list.remove(at);
            true
        } else {
            false
        }
    }
}

} // verus!
