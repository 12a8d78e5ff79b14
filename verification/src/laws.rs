//! What holds of the statistics, whatever the occurrences are.
//!
//! Each law is a proof about the functions of [`crate::model`], which are
//! what the functions of [`crate::utils`] compute.

use vstd::prelude::*;
use vstd::multiset::group_multiset_axioms;
use vstd::seq_lib::{
    group_to_multiset_ensures, lemma_multiset_commutative, to_multiset_build, to_multiset_len,
    to_multiset_remove,
};
use crate::date::Date;
use crate::event_map::{
    has_name, index_of_name, lemma_index_of_name, lemma_kept_names, lemma_kept_names_distinct,
    lemma_kept_value, lemma_unique_name, names_of, value_for,
};
use crate::events::EventOccurrence;
use crate::model::{
    ascending, average_entry, average_of, average_or_zero, averages_of, day_counts, days_until,
    details_of, display_order, elapsed_of, event_names, gaps_entry, gaps_of, has_gap,
    has_two_days, history_of, indices, is_ascending, is_named, lemma_ascending,
    lemma_ascending_is_unique, lemma_event_names_contains, lemma_event_names_distinct,
    lemma_history_entry, lemma_shown_before_is_total, occurrences_of, shown_before, summary_of,
    summary_row,
};

verus! {

/// The events of the history are the events that occur, each once.
pub proof fn lemma_history_names(events: Seq<EventOccurrence>, now: Date)
    ensures
        names_of(history_of(events, now)) == event_names(events),
        names_of(history_of(events, now)).no_duplicates(),
{
    assert(names_of(history_of(events, now)) =~= event_names(events));
    lemma_event_names_distinct(events);
}

/// The history groups the occurrences by name. It has an event just when
/// that event occurs, with one day count for each of its occurrences, and the
/// day counts of each event stand in ascending order.
pub proof fn lemma_history_groups_by_name(
    events: Seq<EventOccurrence>,
    now: Date,
    name: Seq<char>,
)
    ensures
        has_name(history_of(events, now), name) <==> occurrences_of(events, name).len() > 0,
        has_name(history_of(events, now), name) ==> {
            &&& value_for(history_of(events, now), name) == ascending(
                day_counts(events, now, name),
            )
            &&& value_for(history_of(events, now), name).len() == occurrences_of(
                events,
                name,
            ).len()
            &&& is_ascending(value_for(history_of(events, now), name))
        },
{
    let history = history_of(events, now);
    let found = occurrences_of(events, name);
    lemma_history_names(events, now);
    lemma_event_names_contains(events, name);
    if has_name(history, name) {
        lemma_index_of_name(history, name);
        lemma_history_entry(events, now, index_of_name(history, name));
    }
    if found.len() > 0 {
        events.lemma_filter_pred(is_named(name), 0);
        assert(found.contains(found[0]));
        events.lemma_filter_contains_rev(is_named(name), found[0]);
        let k = choose|k: int| 0 <= k < events.len() && events[k] == found[0];
        assert(events[k].name@ == name);
    }
}

/// What is kept of a sequence with one more value put in somewhere has that
/// value once more, if it is kept, and is otherwise as before.
proof fn lemma_kept_of_insert<A, B>(
    values: Seq<A>,
    at: int,
    value: A,
    keep: spec_fn(A) -> bool,
    change: spec_fn(A) -> B,
)
    requires
        0 <= at <= values.len(),
    ensures
        values.insert(at, value).filter(keep).map_values(change).to_multiset() == if keep(value) {
            values.filter(keep).map_values(change).to_multiset().insert(change(value))
        } else {
            values.filter(keep).map_values(change).to_multiset()
        },
{
    broadcast use group_multiset_axioms;

    let left = values.take(at);
    let right = values.skip(at);
    assert(values =~= left + right);
    assert(values.insert(at, value) =~= left.push(value) + right);
    Seq::filter_distributes_over_add(left, right, keep);
    Seq::filter_distributes_over_add(left.push(value), right, keep);
    left.lemma_filter_push(value, keep);
    let kept_left = left.filter(keep).map_values(change);
    let kept_right = right.filter(keep).map_values(change);
    assert((left.filter(keep) + right.filter(keep)).map_values(change) =~= kept_left + kept_right);
    lemma_multiset_commutative(kept_left, kept_right);
    if keep(value) {
        left.filter(keep).lemma_push_map_commute(change, value);
        assert((left.filter(keep).push(value) + right.filter(keep)).map_values(change)
            =~= kept_left.push(change(value)) + kept_right);
        lemma_multiset_commutative(kept_left.push(change(value)), kept_right);
        to_multiset_build(kept_left, change(value));
        assert(kept_left.to_multiset().insert(change(value)).add(kept_right.to_multiset())
            =~= kept_left.to_multiset().add(kept_right.to_multiset()).insert(change(value)));
    }
}

/// Two sequences that hold the same values, each as often as the other, keep
/// the same values, each as often.
proof fn lemma_kept_of_permutation<A, B>(
    first: Seq<A>,
    second: Seq<A>,
    keep: spec_fn(A) -> bool,
    change: spec_fn(A) -> B,
)
    requires
        first.to_multiset() == second.to_multiset(),
    ensures
        first.filter(keep).map_values(change).to_multiset() == second.filter(keep).map_values(
            change,
        ).to_multiset(),
    decreases first.len(),
{
    broadcast use group_multiset_axioms;
    broadcast use group_to_multiset_ensures;

    to_multiset_len(first);
    to_multiset_len(second);
    if first.len() == 0 {
        assert(second.len() == 0);
        assert(first =~= second);
    } else {
        let last = first.last();
        let rest = first.drop_last();
        assert(first =~= rest.push(last));
        assert(second.to_multiset().count(last) > 0);
        assert(second.contains(last));
        let at = choose|at: int| 0 <= at < second.len() && second[at] == last;
        let others = second.remove(at);
        to_multiset_remove(second, at);
        to_multiset_build(rest, last);
        assert(rest.to_multiset() =~= first.to_multiset().remove(last));
        lemma_kept_of_permutation(rest, others, keep, change);
        rest.lemma_filter_push(last, keep);
        rest.filter(keep).lemma_push_map_commute(change, last);
        to_multiset_build(rest.filter(keep).map_values(change), change(last));
        assert(second =~= others.insert(at, last));
        lemma_kept_of_insert(others, at, last, keep, change);
    }
}

/// The history does not depend on the order of the occurrences: the same
/// occurrences in another order give the same events, and each event the same
/// day counts.
pub proof fn lemma_history_of_permutation(
    first: Seq<EventOccurrence>,
    second: Seq<EventOccurrence>,
    now: Date,
    name: Seq<char>,
)
    requires
        first.to_multiset() == second.to_multiset(),
    ensures
        has_name(history_of(first, now), name) == has_name(history_of(second, now), name),
        has_name(history_of(first, now), name) ==> value_for(history_of(first, now), name)
            == value_for(history_of(second, now), name),
{
    broadcast use group_to_multiset_ensures;

    lemma_history_groups_by_name(first, now, name);
    lemma_history_groups_by_name(second, now, name);
    lemma_kept_of_permutation(first, second, is_named(name), days_until(now));
    let counts = day_counts(first, now, name);
    let others = day_counts(second, now, name);
    to_multiset_len(counts);
    to_multiset_len(others);
    to_multiset_len(ascending(counts));
    lemma_ascending(counts);
    lemma_ascending_is_unique(ascending(counts), others);
}

/// The gaps of an event are one fewer than its day counts, and an event with
/// fewer than two day counts is left out.
pub proof fn lemma_elapsed_by_name(history: Seq<(Seq<char>, Seq<int>)>, name: Seq<char>)
    requires
        names_of(history).no_duplicates(),
    ensures
        names_of(elapsed_of(history)).no_duplicates(),
        has_name(elapsed_of(history), name) <==> has_name(history, name) && value_for(
            history,
            name,
        ).len() >= 2,
        has_name(elapsed_of(history), name) ==> {
            &&& value_for(elapsed_of(history), name) == gaps_of(value_for(history, name))
            &&& value_for(elapsed_of(history), name).len() == value_for(history, name).len() - 1
        },
{
    lemma_kept_names_distinct(history, has_two_days(), gaps_entry());
    lemma_kept_names(history, has_two_days(), gaps_entry(), name);
    if has_name(elapsed_of(history), name) {
        let i = choose|i: int|
            0 <= i < history.len() && (#[trigger] history[i]).0 == name && has_two_days()(
                history[i],
            );
        lemma_unique_name(history, i);
        lemma_kept_value(history, has_two_days(), gaps_entry(), i);
    }
    if has_name(history, name) && value_for(history, name).len() >= 2 {
        lemma_index_of_name(history, name);
        let i = index_of_name(history, name);
        assert(has_two_days()(history[i]));
    }
}

/// The average of an event is the mean of its gaps, rounded toward zero, and
/// an event without a gap is left out.
pub proof fn lemma_averages_by_name(elapsed: Seq<(Seq<char>, Seq<int>)>, name: Seq<char>)
    requires
        names_of(elapsed).no_duplicates(),
    ensures
        names_of(averages_of(elapsed)).no_duplicates(),
        has_name(averages_of(elapsed), name) <==> has_name(elapsed, name) && value_for(
            elapsed,
            name,
        ).len() > 0,
        has_name(averages_of(elapsed), name) ==> value_for(averages_of(elapsed), name)
            == average_of(value_for(elapsed, name)),
{
    lemma_kept_names_distinct(elapsed, has_gap(), average_entry());
    lemma_kept_names(elapsed, has_gap(), average_entry(), name);
    if has_name(averages_of(elapsed), name) {
        let i = choose|i: int|
            0 <= i < elapsed.len() && (#[trigger] elapsed[i]).0 == name && has_gap()(elapsed[i]);
        lemma_unique_name(elapsed, i);
        lemma_kept_value(elapsed, has_gap(), average_entry(), i);
    }
    if has_name(elapsed, name) && value_for(elapsed, name).len() > 0 {
        lemma_index_of_name(elapsed, name);
        let i = index_of_name(elapsed, name);
        assert(has_gap()(elapsed[i]));
    }
}

/// The display order holds each index of the history once, and an event
/// stands before every event that occurred less recently.
pub proof fn lemma_display_order(history: Seq<(Seq<char>, Seq<int>)>)
    ensures
        display_order(history).len() == history.len(),
        display_order(history).no_duplicates(),
        forall|k: int|
            0 <= k < history.len() ==> 0 <= #[trigger] display_order(history)[k] < history.len(),
        forall|i: int| 0 <= i < history.len() ==> display_order(history).contains(i),
        forall|j: int, k: int|
            0 <= j < k < history.len() ==> shown_before(history)(
                #[trigger] display_order(history)[j],
                #[trigger] display_order(history)[k],
            ),
{
    broadcast use group_to_multiset_ensures;
    broadcast use group_multiset_axioms;

    let all = indices(history.len());
    let order = display_order(history);
    lemma_shown_before_is_total(history);
    all.lemma_sort_by_ensures(shown_before(history));
    to_multiset_len(order);
    to_multiset_len(all);
    assert forall|i: int| 0 <= i < history.len() implies order.contains(i) by {
        assert(all[i] == i);
        assert(all.contains(i));
        assert(all.to_multiset().count(i) > 0);
    }
    assert forall|k: int| 0 <= k < history.len() implies 0 <= #[trigger] order[k]
        < history.len() by {
        assert(order.contains(order[k]));
        assert(order.to_multiset().count(order[k]) > 0);
        assert(all.contains(order[k]));
    }
    assert(all.no_duplicates());
    all.lemma_multiset_has_no_duplicates();
    order.lemma_multiset_has_no_duplicates_conv();
}

/// The summary has one row for each event of the history, and the rows stand
/// in ascending order of the days since the most recent occurrence.
pub proof fn lemma_summary_is_sorted(
    history: Seq<(Seq<char>, Seq<int>)>,
    averages: Seq<(Seq<char>, int)>,
)
    ensures
        summary_of(history, averages).len() == history.len(),
        forall|j: int, k: int|
            0 <= j < k < history.len() ==> (#[trigger] summary_of(history, averages)[j]).1 <= (
            #[trigger] summary_of(history, averages)[k]).1,
{
    lemma_display_order(history);
    let order = display_order(history);
    assert forall|j: int, k: int| 0 <= j < k < history.len() implies (#[trigger] summary_of(
        history,
        averages,
    )[j]).1 <= (#[trigger] summary_of(history, averages)[k]).1 by {
        assert(shown_before(history)(order[j], order[k]));
    }
}

/// The summary has a row for each event of the history: its name, the
/// smallest of its day counts, and its average, or 0 if it has none.
pub proof fn lemma_summary_by_name(
    history: Seq<(Seq<char>, Seq<int>)>,
    averages: Seq<(Seq<char>, int)>,
    name: Seq<char>,
)
    requires
        has_name(history, name),
    ensures
        summary_of(history, averages).contains(
            (name, value_for(history, name)[0], average_or_zero(averages, name)),
        ),
{
    lemma_index_of_name(history, name);
    let i = index_of_name(history, name);
    lemma_display_order(history);
    let order = display_order(history);
    assert(order.contains(i));
    let k = choose|k: int| 0 <= k < order.len() && order[k] == i;
    assert(summary_of(history, averages)[k] == summary_row(history, averages)(i));
}

/// Without occurrences every result is empty.
pub proof fn lemma_nothing_occurred(now: Date)
    ensures
        history_of(Seq::empty(), now) == Seq::<(Seq<char>, Seq<int>)>::empty(),
        elapsed_of(Seq::empty()) == Seq::<(Seq<char>, Seq<int>)>::empty(),
        averages_of(Seq::empty()) == Seq::<(Seq<char>, int)>::empty(),
        summary_of(Seq::empty(), Seq::empty()) == Seq::<(Seq<char>, int, int)>::empty(),
        details_of(Seq::empty(), now) == Seq::<(Seq<char>, int, int)>::empty(),
{
    let nothing = Seq::<(Seq<char>, Seq<int>)>::empty();
    assert(history_of(Seq::empty(), now) =~= nothing);
    nothing.lemma_filter_len(has_two_days());
    nothing.lemma_filter_len(has_gap());
    assert(elapsed_of(nothing) =~= nothing);
    assert(averages_of(nothing) =~= Seq::<(Seq<char>, int)>::empty());
    lemma_display_order(nothing);
    assert(summary_of(nothing, Seq::empty()) =~= Seq::<(Seq<char>, int, int)>::empty());
}

/// An event that occurs once has neither gaps nor an average, and its row of
/// the summary shows the days since that occurrence and the average 0.
pub proof fn lemma_single_occurrence(events: Seq<EventOccurrence>, now: Date, name: Seq<char>)
    requires
        occurrences_of(events, name).len() == 1,
    ensures
        has_name(history_of(events, now), name),
        !has_name(elapsed_of(history_of(events, now)), name),
        !has_name(averages_of(elapsed_of(history_of(events, now))), name),
        details_of(events, now).contains(
            (name, now.spec_days_since(occurrences_of(events, name)[0].date), 0),
        ),
{
    let history = history_of(events, now);
    let elapsed = elapsed_of(history);
    let averages = averages_of(elapsed);
    lemma_history_names(events, now);
    lemma_history_groups_by_name(events, now, name);
    lemma_elapsed_by_name(history, name);
    lemma_averages_by_name(elapsed, name);
    lemma_summary_by_name(history, averages, name);
    let counts = day_counts(events, now, name);
    lemma_ascending_is_unique(counts, counts);
}

/// The summary is a function of the occurrences and the day from which they
/// are seen: what is computed twice from the same occurrences and the same
/// day is the same.
pub proof fn lemma_details_repeat(
    events: Seq<EventOccurrence>,
    now: Date,
    first: Seq<(Seq<char>, int, int)>,
    second: Seq<(Seq<char>, int, int)>,
)
    requires
        first == details_of(events, now),
        second == details_of(events, now),
    ensures
        first == second,
{
}

} // verus!
