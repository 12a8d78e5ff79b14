//! What is decided about the stored events before and after the store is
//! asked: which values a statement is given, and how the rows that it
//! returns are grouped.

use vstd::prelude::*;
use vstd::std_specs::hash::group_hash_axioms;
use std::collections::HashMap;

verus! {

/// The values that a statement is given.
#[derive(Debug, Clone)]
pub enum SqlParameters {
    /// The id of an event and the year, month and day of an occurrence.
    Occurrence { id: i32, year: i32, month: u32, day: u32 },
    /// The name of an event.
    Event { name: String },
    /// The id of an event.
    EventId { id: i32 },
    /// No values: the statement is not run.
    Nothing,
}

/// The values that a statement is given, from the three candidates, each of
/// which comes with a flag that says whether it is to be used: an id and a
/// date for a new occurrence, a name alone to add or delete an event, an id
/// alone to delete the occurrences of an event. Any other choice of flags
/// gives nothing.
pub fn sql_parameters(id: (i32, bool), date: (i32, u32, u32, bool), event: (&str, bool)) -> (values:
    SqlParameters)
    ensures
        match values {
            SqlParameters::Occurrence { id: i, year, month, day } => {
                &&& id.1 && date.3 && !event.1
                &&& i == id.0
                &&& year == date.0
                &&& month == date.1
                &&& day == date.2
            },
            SqlParameters::Event { name } => {
                &&& !id.1 && !date.3 && event.1
                &&& name@ == event.0@
            },
            SqlParameters::EventId { id: i } => {
                &&& id.1 && !date.3 && !event.1
                &&& i == id.0
            },
            SqlParameters::Nothing => {
                &&& !(id.1 && date.3 && !event.1)
                &&& !(!id.1 && !date.3 && event.1)
                &&& !(id.1 && !date.3 && !event.1)
            },
        },
{
    if id.1 && date.3 && !event.1 {
        SqlParameters::Occurrence { id: id.0, year: date.0, month: date.1, day: date.2 }
    } else if !id.1 && !date.3 && event.1 {
        SqlParameters::Event { name: event.0.to_owned() }
    } else if id.1 && !date.3 && !event.1 {
        SqlParameters::EventId { id: id.0 }
    } else {
        SqlParameters::Nothing
    }
}

/// The test that a row, which is the name of an event and a day of the
/// month, is one of the day `day`.
pub open spec fn is_on(day: u32) -> spec_fn((String, u32)) -> bool {
    |row: (String, u32)| row.1 == day
}

/// What takes a row to the name of its event.
pub open spec fn name_of_row() -> spec_fn((String, u32)) -> Seq<char> {
    |row: (String, u32)| row.0@
}

/// The names of the events of the rows of the day `day`, in the order of
/// the rows.
pub open spec fn names_on(rows: Seq<(String, u32)>, day: u32) -> Seq<Seq<char>> {
    rows.filter(is_on(day)).map_values(name_of_row())
}

/// The texts of `names`.
pub open spec fn texts_of(names: Seq<String>) -> Seq<Seq<char>> {
    names.map_values(|name: String| name@)
}

/// Groups the events of one month by the day of the month on which they
/// occurred. Each row is the name of an event and a day; the result holds,
/// for each day that has a row, the names of its rows in their order.
pub fn events_by_year_month(rows: &Vec<(String, u32)>) -> (by_day: HashMap<u32, Vec<String>>)
    ensures
        forall|day: u32| #[trigger] by_day@.contains_key(day) <==> names_on(rows@, day).len() > 0,
        forall|day: u32| #[trigger]
            by_day@.contains_key(day) ==> texts_of(by_day@[day]@) == names_on(rows@, day),
{
    broadcast use group_hash_axioms;

    let mut by_day: HashMap<u32, Vec<String>> = HashMap::new();
    let mut i: usize = 0;
    proof {
        assert forall|day: u32| names_on(rows@.take(0), day).len() == 0 by {
            rows@.take(0).lemma_filter_len(is_on(day));
        }
    }
    while i < rows.len()
        invariant
            i <= rows@.len(),
            forall|day: u32| #[trigger]
                by_day@.contains_key(day) <==> names_on(rows@.take(i as int), day).len() > 0,
            forall|day: u32| #[trigger]
                by_day@.contains_key(day) ==> texts_of(by_day@[day]@) == names_on(
                    rows@.take(i as int),
                    day,
                ),
        decreases rows@.len() - i,
    {
        let day = rows[i].1;
        let name = rows[i].0.clone();
        let ghost before = by_day@;
        let mut names = match by_day.remove(&day) {
            Some(names) => names,
            None => Vec::new(),
        };
        let ghost earlier = names@;
        names.push(name);
        by_day.insert(day, names);
        proof {
            let seen = rows@.take(i as int);
            assert(rows@.take(i + 1) =~= seen.push(rows@[i as int]));
            assert forall|other: u32|
                {
                    &&& #[trigger] by_day@.contains_key(other) <==> names_on(
                        rows@.take(i + 1),
                        other,
                    ).len() > 0
                    &&& by_day@.contains_key(other) ==> texts_of(by_day@[other]@) == names_on(
                        rows@.take(i + 1),
                        other,
                    )
                } by {
                seen.lemma_filter_push(rows@[i as int], is_on(other));
                seen.filter(is_on(other)).lemma_push_map_commute(name_of_row(), rows@[i as int]);
                if other == day {
                    if before.contains_key(day) {
                        assert(texts_of(earlier) == names_on(seen, day));
                    } else {
                        assert(earlier =~= Seq::<String>::empty());
                        assert(texts_of(earlier) =~= names_on(seen, day));
                    }
                    assert(texts_of(earlier.push(name)) =~= texts_of(earlier).push(name@));
                } else {
                    assert(before.contains_key(other) == by_day@.contains_key(other));
                }
            }
        }
        i += 1;
    }
    proof {
        assert(rows@.take(i as int) =~= rows@);
    }
    by_day
}

} // verus!
