//! What the statistics are, as functions of the recorded occurrences.
//!
//! Each stage of the statistics is a sequence of named values, in which each
//! event's name stands once: the model of an
//! [`EventMap`](crate::event_map::EventMap).

use vstd::prelude::*;
use vstd::relations::{sorted_by, total_ordering};
use vstd::seq_lib::{lemma_sorted_unique, to_multiset_build};
use crate::date::Date;
use crate::event_map::{
    has_name, index_of_name, lemma_changed_names, lemma_index_of_name, names_of, value_for,
    EventMap,
};
use crate::events::EventOccurrence;

verus! {

/// The numbers of `days` as mathematical integers.
pub open spec fn ints(days: Seq<i32>) -> Seq<int> {
    days.map_values(|d: i32| d as int)
}

/// Whether no number of `days` is smaller than the one before it.
pub open spec fn is_ascending(days: Seq<int>) -> bool {
    forall|i: int, j: int| 0 <= i < j < days.len() ==> days[i] <= days[j]
}

/// The order of the integers.
pub open spec fn at_most() -> spec_fn(int, int) -> bool {
    |a: int, b: int| a <= b
}

/// The numbers of `days` in ascending order.
pub open spec fn ascending(days: Seq<int>) -> Seq<int> {
    days.sort_by(at_most())
}

/// Whether every number of `days` is at least `low` and at most `high`.
pub open spec fn all_within(days: Seq<int>, low: int, high: int) -> bool {
    forall|i: int| 0 <= i < days.len() ==> low <= #[trigger] days[i] <= high
}

/// What takes an event's list of numbers to the same numbers as integers.
pub open spec fn list_entry() -> spec_fn((Seq<char>, Vec<i32>)) -> (Seq<char>, Seq<int>) {
    |entry: (Seq<char>, Vec<i32>)| (entry.0, ints(entry.1@))
}

/// The model of a map from events to lists of numbers: each name with its
/// numbers, in the map's order.
pub open spec fn lists_of(map: &EventMap<Vec<i32>>) -> Seq<(Seq<char>, Seq<int>)> {
    map.entries().map_values(list_entry())
}

/// What takes an event's number to the same number as an integer.
pub open spec fn number_entry() -> spec_fn((Seq<char>, i32)) -> (Seq<char>, int) {
    |entry: (Seq<char>, i32)| (entry.0, entry.1 as int)
}

/// The model of a map from events to numbers: each name with its number, in
/// the map's order.
pub open spec fn numbers_of(map: &EventMap<i32>) -> Seq<(Seq<char>, int)> {
    map.entries().map_values(number_entry())
}

/// What takes a row of a summary to its model.
pub open spec fn row_entry() -> spec_fn((String, i32, i32)) -> (Seq<char>, int, int) {
    |row: (String, i32, i32)| (row.0@, row.1 as int, row.2 as int)
}

/// The model of a summary: the name, the days since the most recent
/// occurrence and the average of each row, in the rows' order.
pub open spec fn rows_of(rows: Seq<(String, i32, i32)>) -> Seq<(Seq<char>, int, int)> {
    rows.map_values(row_entry())
}

/// The test that an occurrence is one of the event `name`.
pub open spec fn is_named(name: Seq<char>) -> spec_fn(EventOccurrence) -> bool {
    |occurrence: EventOccurrence| occurrence.name@ == name
}

/// What takes an occurrence to the whole days from its date to `now`.
pub open spec fn days_until(now: Date) -> spec_fn(EventOccurrence) -> int {
    |occurrence: EventOccurrence| now.spec_days_since(occurrence.date)
}

/// The occurrences of the event `name` among `events`, in their order.
pub open spec fn occurrences_of(events: Seq<EventOccurrence>, name: Seq<char>) -> Seq<
    EventOccurrence,
> {
    events.filter(is_named(name))
}

/// For each occurrence of the event `name`, in the order of `events`, the days
/// from its date to `now`.
pub open spec fn day_counts(events: Seq<EventOccurrence>, now: Date, name: Seq<char>) -> Seq<int> {
    occurrences_of(events, name).map_values(days_until(now))
}

/// The names of the events that occur in `events`, each once, in the order in
/// which they first occur.
pub open spec fn event_names(events: Seq<EventOccurrence>) -> Seq<Seq<char>>
    decreases events.len(),
{
    if events.len() == 0 {
        Seq::empty()
    } else {
        let earlier = event_names(events.drop_last());
        let name = events.last().name@;
        if earlier.contains(name) {
            earlier
        } else {
            earlier.push(name)
        }
    }
}

/// What takes an event's name to its entry in the history of `events`: the
/// day counts of its occurrences, in ascending order.
pub open spec fn history_entry(events: Seq<EventOccurrence>, now: Date) -> spec_fn(Seq<char>) -> (
    Seq<char>,
    Seq<int>,
) {
    |name: Seq<char>| (name, ascending(day_counts(events, now, name)))
}

/// The history of `events` as seen from `now`: for each event, in the order
/// of [`event_names`], how many days ago each of its occurrences was, the most
/// recent first.
pub open spec fn history_of(events: Seq<EventOccurrence>, now: Date) -> Seq<(Seq<char>, Seq<int>)> {
    event_names(events).map_values(history_entry(events, now))
}

/// The differences between each number of `days` and the one before it.
pub open spec fn gaps_of(days: Seq<int>) -> Seq<int> {
    if days.len() < 2 {
        Seq::empty()
    } else {
        Seq::new((days.len() - 1) as nat, |i: int| days[i + 1] - days[i])
    }
}

/// Whether every gap between the day counts of every event of `history` is a
/// number that an `i32` can hold.
pub open spec fn gaps_fit(history: Seq<(Seq<char>, Seq<int>)>) -> bool {
    forall|i: int|
        0 <= i < history.len() ==> all_within(
            gaps_of((#[trigger] history[i]).1),
            i32::MIN as int,
            i32::MAX as int,
        )
}

/// The test that an event has occurred at least twice.
pub open spec fn has_two_days() -> spec_fn((Seq<char>, Seq<int>)) -> bool {
    |entry: (Seq<char>, Seq<int>)| entry.1.len() >= 2
}

/// What takes an event's day counts to the gaps between them.
pub open spec fn gaps_entry() -> spec_fn((Seq<char>, Seq<int>)) -> (Seq<char>, Seq<int>) {
    |entry: (Seq<char>, Seq<int>)| (entry.0, gaps_of(entry.1))
}

/// The gaps between the consecutive occurrences of each event of `history`
/// that has occurred at least twice. The other events are left out.
pub open spec fn elapsed_of(history: Seq<(Seq<char>, Seq<int>)>) -> Seq<(Seq<char>, Seq<int>)> {
    history.filter(has_two_days()).map_values(gaps_entry())
}

/// The sum of `numbers`.
pub open spec fn sum_of(numbers: Seq<int>) -> int
    decreases numbers.len(),
{
    if numbers.len() == 0 {
        0
    } else {
        sum_of(numbers.drop_last()) + numbers.last()
    }
}

/// `dividend / divisor` rounded toward zero, for a positive `divisor`.
pub open spec fn quotient_toward_zero(dividend: int, divisor: int) -> int {
    if dividend >= 0 {
        dividend / divisor
    } else {
        -((-dividend) / divisor)
    }
}

/// The mean of `gaps`, rounded toward zero.
pub open spec fn average_of(gaps: Seq<int>) -> int {
    quotient_toward_zero(sum_of(gaps), gaps.len() as int)
}

/// The test that an event has a gap.
pub open spec fn has_gap() -> spec_fn((Seq<char>, Seq<int>)) -> bool {
    |entry: (Seq<char>, Seq<int>)| entry.1.len() > 0
}

/// What takes an event's gaps to their average.
pub open spec fn average_entry() -> spec_fn((Seq<char>, Seq<int>)) -> (Seq<char>, int) {
    |entry: (Seq<char>, Seq<int>)| (entry.0, average_of(entry.1))
}

/// The average gap of each event of `elapsed` that has a gap. The other
/// events are left out.
pub open spec fn averages_of(elapsed: Seq<(Seq<char>, Seq<int>)>) -> Seq<(Seq<char>, int)> {
    elapsed.filter(has_gap()).map_values(average_entry())
}

/// Whether every event of `history` has occurred at least once.
pub open spec fn all_occurred(history: Seq<(Seq<char>, Seq<int>)>) -> bool {
    forall|i: int| 0 <= i < history.len() ==> (#[trigger] history[i]).1.len() > 0
}

/// The days since the most recent occurrence of the event at index `i` of
/// `history`.
pub open spec fn latest(history: Seq<(Seq<char>, Seq<int>)>, i: int) -> int {
    history[i].1[0]
}

/// The order in which the events of `history` are displayed, as a relation
/// between their indices: the event that occurred more recently comes first,
/// and of two that last occurred on the same day, the one that stands first
/// in `history`.
pub open spec fn shown_before(history: Seq<(Seq<char>, Seq<int>)>) -> spec_fn(int, int) -> bool {
    |i: int, j: int|
        latest(history, i) < latest(history, j) || (latest(history, i) == latest(history, j) && i
            <= j)
}

/// The numbers from 0 up to, but without, `count`.
pub open spec fn indices(count: nat) -> Seq<int> {
    Seq::new(count, |i: int| i)
}

/// The indices of `history` in the order in which its events are displayed.
pub open spec fn display_order(history: Seq<(Seq<char>, Seq<int>)>) -> Seq<int> {
    indices(history.len()).sort_by(shown_before(history))
}

/// The average of the event `name`, or 0 if `averages` has none for it.
pub open spec fn average_or_zero(averages: Seq<(Seq<char>, int)>, name: Seq<char>) -> int {
    if has_name(averages, name) {
        value_for(averages, name)
    } else {
        0
    }
}

/// What takes an index of `history` to the summary's row for that event: its
/// name, the days since its most recent occurrence, and its average gap or 0.
pub open spec fn summary_row(
    history: Seq<(Seq<char>, Seq<int>)>,
    averages: Seq<(Seq<char>, int)>,
) -> spec_fn(int) -> (Seq<char>, int, int) {
    |i: int| (history[i].0, latest(history, i), average_or_zero(averages, history[i].0))
}

/// The summary of `history` and `averages`: one row for each event of
/// `history`, in display order.
pub open spec fn summary_of(
    history: Seq<(Seq<char>, Seq<int>)>,
    averages: Seq<(Seq<char>, int)>,
) -> Seq<(Seq<char>, int, int)> {
    display_order(history).map_values(summary_row(history, averages))
}

/// The summary of the occurrences `events` as seen from `now`.
pub open spec fn details_of(events: Seq<EventOccurrence>, now: Date) -> Seq<(Seq<char>, int, int)> {
    let history = history_of(events, now);
    summary_of(history, averages_of(elapsed_of(history)))
}

/// The order in which events are displayed is a total order of the indices.
pub proof fn lemma_shown_before_is_total(history: Seq<(Seq<char>, Seq<int>)>)
    ensures
        total_ordering(shown_before(history)),
{
    let before = shown_before(history);
    assert forall|i: int, j: int| #[trigger] before(i, j) && #[trigger] before(j, i) implies i
        == j by {}
    assert forall|i: int, j: int, k: int| #[trigger] before(i, j) && #[trigger] before(
        j,
        k,
    ) implies before(i, k) by {}
    assert forall|i: int, j: int| #[trigger] before(i, j) || #[trigger] before(j, i) by {}
    assert forall|i: int| #[trigger] before(i, i) by {}
}

/// The model of a map from events to lists of numbers has the names of the
/// map, and under each name the numbers that the map has under it.
pub proof fn lemma_lists_by_name(map: &EventMap<Vec<i32>>, name: Seq<char>)
    ensures
        names_of(lists_of(map)) == map.names(),
        has_name(lists_of(map), name) == map.contains(name),
        map.contains(name) ==> value_for(lists_of(map), name) == ints(map.value_of(name)@),
{
    lemma_changed_names(map.entries(), list_entry());
    if map.contains(name) {
        lemma_index_of_name(map.entries(), name);
    }
}

/// The model of a map from events to numbers has the names of the map, and
/// under each name the number that the map has under it.
pub proof fn lemma_numbers_by_name(map: &EventMap<i32>, name: Seq<char>)
    ensures
        names_of(numbers_of(map)) == map.names(),
        has_name(numbers_of(map), name) == map.contains(name),
        map.contains(name) ==> value_for(numbers_of(map), name) == map.value_of(name),
{
    lemma_changed_names(map.entries(), number_entry());
    if map.contains(name) {
        lemma_index_of_name(map.entries(), name);
    }
}

/// The order of the integers is a total order.
pub proof fn lemma_at_most_is_total()
    ensures
        total_ordering(at_most()),
{
    let order = at_most();
    assert forall|a: int, b: int| #[trigger] order(a, b) && #[trigger] order(b, a) implies a
        == b by {}
    assert forall|a: int, b: int, c: int| #[trigger] order(a, b) && #[trigger] order(
        b,
        c,
    ) implies order(a, c) by {}
    assert forall|a: int, b: int| #[trigger] order(a, b) || #[trigger] order(b, a) by {}
    assert forall|a: int| #[trigger] order(a, a) by {}
}

/// Putting numbers in ascending order gives the same numbers, each as often
/// as before, and none of them is smaller than the one before it.
pub proof fn lemma_ascending(days: Seq<int>)
    ensures
        is_ascending(ascending(days)),
        ascending(days).to_multiset() == days.to_multiset(),
        ascending(days).len() == days.len(),
{
    lemma_at_most_is_total();
    days.lemma_sort_by_ensures(at_most());
    let sorted = ascending(days);
    assert forall|i: int, j: int| 0 <= i < j < sorted.len() implies sorted[i] <= sorted[j] by {
        assert(at_most()(sorted[i], sorted[j]));
    }
    sorted.to_multiset_ensures();
    days.to_multiset_ensures();
}

/// There is one way only to put numbers in ascending order.
pub proof fn lemma_ascending_is_unique(sorted: Seq<int>, days: Seq<int>)
    requires
        is_ascending(sorted),
        sorted.to_multiset() == days.to_multiset(),
    ensures
        sorted == ascending(days),
{
    lemma_at_most_is_total();
    lemma_ascending(days);
    assert(sorted_by(sorted, at_most()));
    days.lemma_sort_by_ensures(at_most());
    lemma_sorted_unique(sorted, ascending(days), at_most());
}

/// One more occurrence adds its event's name behind the others, unless the
/// event has occurred before.
pub proof fn lemma_event_names_push(earlier: Seq<EventOccurrence>, occurrence: EventOccurrence)
    ensures
        event_names(earlier.push(occurrence)) == if event_names(earlier).contains(
            occurrence.name@,
        ) {
            event_names(earlier)
        } else {
            event_names(earlier).push(occurrence.name@)
        },
{
    assert(earlier.push(occurrence).drop_last() =~= earlier);
}

/// No name stands twice among the names of the events.
pub proof fn lemma_event_names_distinct(events: Seq<EventOccurrence>)
    ensures
        event_names(events).no_duplicates(),
    decreases events.len(),
{
    if events.len() > 0 {
        lemma_event_names_distinct(events.drop_last());
    }
}

/// The names of the events are the names that the occurrences have.
pub proof fn lemma_event_names_contains(events: Seq<EventOccurrence>, name: Seq<char>)
    ensures
        event_names(events).contains(name) <==> exists|k: int|
            0 <= k < events.len() && (#[trigger] events[k]).name@ == name,
    decreases events.len(),
{
    if events.len() > 0 {
        let earlier = events.drop_last();
        let names = event_names(earlier);
        lemma_event_names_contains(earlier, name);
        if event_names(events).contains(name) {
            if names.contains(name) {
                let k = choose|k: int| 0 <= k < earlier.len() && (#[trigger] earlier[k]).name@ == name;
                assert(events[k].name@ == name);
            } else {
                assert(names.push(events.last().name@).contains(name));
                let i = choose|i: int|
                    0 <= i < names.len() + 1 && names.push(events.last().name@)[i] == name;
                if i < names.len() {
                    assert(names[i] == name);
                }
                assert(events[events.len() - 1].name@ == name);
            }
        }
        if exists|k: int| 0 <= k < events.len() && (#[trigger] events[k]).name@ == name {
            let k = choose|k: int| 0 <= k < events.len() && (#[trigger] events[k]).name@ == name;
            if k < earlier.len() {
                assert(earlier[k].name@ == name);
                assert(names.contains(name));
                if !names.contains(events.last().name@) {
                    let i = choose|i: int| 0 <= i < names.len() && names[i] == name;
                    assert(names.push(events.last().name@)[i] == name);
                }
            } else {
                if !names.contains(name) {
                    assert(names.push(name)[names.len() as int] == name);
                }
            }
        }
    }
}

/// One more occurrence adds its day count behind the others of its event,
/// and leaves the day counts of the other events as they are.
pub proof fn lemma_day_counts_push(
    earlier: Seq<EventOccurrence>,
    occurrence: EventOccurrence,
    now: Date,
    name: Seq<char>,
)
    ensures
        day_counts(earlier.push(occurrence), now, name) == if occurrence.name@ == name {
            day_counts(earlier, now, name).push(now.spec_days_since(occurrence.date))
        } else {
            day_counts(earlier, now, name)
        },
{
    earlier.lemma_filter_push(occurrence, is_named(name));
    earlier.filter(is_named(name)).lemma_push_map_commute(days_until(now), occurrence);
}

/// An event whose name is not among the names of the events has no day
/// counts.
pub proof fn lemma_day_counts_of_stranger(events: Seq<EventOccurrence>, now: Date, name: Seq<char>)
    requires
        !event_names(events).contains(name),
    ensures
        day_counts(events, now, name) == Seq::<int>::empty(),
{
    let found = occurrences_of(events, name);
    if found.len() > 0 {
        events.lemma_filter_pred(is_named(name), 0);
        assert(found.contains(found[0]));
        events.lemma_filter_contains_rev(is_named(name), found[0]);
        let k = choose|k: int| 0 <= k < events.len() && events[k] == found[0];
        assert(events[k].name@ == name);
        lemma_event_names_contains(events, name);
    }
    assert(day_counts(events, now, name) =~= Seq::<int>::empty());
}

/// Each event of the history has as many day counts as it has occurrences,
/// which is at least one, and they stand in ascending order.
pub proof fn lemma_history_entry(events: Seq<EventOccurrence>, now: Date, i: int)
    requires
        0 <= i < history_of(events, now).len(),
    ensures
        history_of(events, now)[i].0 == event_names(events)[i],
        history_of(events, now)[i].1.len() == occurrences_of(
            events,
            history_of(events, now)[i].0,
        ).len(),
        history_of(events, now)[i].1.len() > 0,
        is_ascending(history_of(events, now)[i].1),
{
    let name = event_names(events)[i];
    lemma_ascending(day_counts(events, now, name));
    assert(event_names(events).contains(name));
    lemma_event_names_contains(events, name);
    let k = choose|k: int| 0 <= k < events.len() && (#[trigger] events[k]).name@ == name;
    events.lemma_filter_contains(is_named(name), k);
}

/// What one more occurrence does to the history: it adds its day count to
/// those of its event, or, for an event that has not occurred before, adds
/// the event behind the others.
pub proof fn lemma_history_push(
    earlier: Seq<EventOccurrence>,
    occurrence: EventOccurrence,
    now: Date,
)
    ensures
        names_of(history_of(earlier, now)) == event_names(earlier),
        names_of(history_of(earlier, now)).no_duplicates(),
        has_name(history_of(earlier, now), occurrence.name@) ==> history_of(
            earlier.push(occurrence),
            now,
        ) == history_of(earlier, now).update(
            index_of_name(history_of(earlier, now), occurrence.name@),
            (
                occurrence.name@,
                ascending(
                    value_for(history_of(earlier, now), occurrence.name@).push(
                        now.spec_days_since(occurrence.date),
                    ),
                ),
            ),
        ),
        !has_name(history_of(earlier, now), occurrence.name@) ==> history_of(
            earlier.push(occurrence),
            now,
        ) == history_of(earlier, now).push(
            (occurrence.name@, seq![now.spec_days_since(occurrence.date)]),
        ),
{
    let name = occurrence.name@;
    let days = now.spec_days_since(occurrence.date);
    let later = earlier.push(occurrence);
    let names = event_names(earlier);
    let history = history_of(earlier, now);
    let next = history_of(later, now);
    assert(names_of(history) =~= names);
    lemma_event_names_distinct(earlier);
    lemma_event_names_push(earlier, occurrence);
    assert forall|i: int| 0 <= i < names.len() && names[i] != name implies next[i]
        == history[i] by {
        lemma_day_counts_push(earlier, occurrence, now, names[i]);
    }
    lemma_day_counts_push(earlier, occurrence, now, name);
    if names.contains(name) {
        lemma_index_of_name(history, name);
        let at = index_of_name(history, name);
        let before = day_counts(earlier, now, name);
        lemma_ascending(before);
        lemma_ascending(before.push(days));
        to_multiset_build(before, days);
        to_multiset_build(ascending(before), days);
        lemma_ascending_is_unique(ascending(before.push(days)), ascending(before).push(days));
        assert(next =~= history.update(at, (name, ascending(history[at].1.push(days)))));
    } else {
        lemma_day_counts_of_stranger(earlier, now, name);
        let only = seq![days];
        assert(Seq::<int>::empty().push(days) =~= only);
        lemma_ascending_is_unique(only, only);
        assert(next =~= history.push((name, only)));
    }
}

} // verus!
