//! The statistics: from the recorded occurrences to the summary that is
//! displayed.

use vstd::prelude::*;
use vstd::arithmetic::div_mod::{lemma_div_is_ordered, lemma_div_multiples_vanish};
use vstd::relations::sorted_by;
use vstd::seq_lib::{lemma_sorted_unique, to_multiset_build, to_multiset_insert};
use crate::date::{Date, MAX_DAYS_APART};
pub use crate::date::{get_date, last_day_of_month};
use crate::event_map::{
    lemma_changed_names, lemma_index_of_name, lemma_kept_names, lemma_not_yet_named, EventMap,
};
use crate::events::EventOccurrence;
use crate::laws::{
    lemma_averages_by_name, lemma_elapsed_by_name, lemma_history_groups_by_name,
    lemma_summary_is_sorted,
};
use crate::model::{
    all_occurred, all_within, ascending, average_entry, average_of, average_or_zero, averages_of,
    details_of, elapsed_of, gaps_entry, gaps_fit, gaps_of, has_gap, has_two_days, history_of,
    indices, ints, is_ascending, lemma_ascending_is_unique, lemma_history_entry,
    lemma_history_push, lemma_lists_by_name, lemma_numbers_by_name,
    lemma_shown_before_is_total, list_entry, lists_of, number_entry, numbers_of, occurrences_of,
    row_entry, rows_of, shown_before, sum_of, summary_of, summary_row,
};

verus! {

/// Whether every day count of every event of `history` is the distance of
/// two dates.
pub open spec fn days_in_range(history: Seq<(Seq<char>, Seq<int>)>) -> bool {
    forall|i: int|
        0 <= i < history.len() ==> all_within(
            (#[trigger] history[i]).1,
            -MAX_DAYS_APART as int,
            MAX_DAYS_APART as int,
        )
}

/// Puts `value` into `days`, which are in ascending order, at its place
/// among them, and returns the index at which it stands.
fn insert_ascending(days: &mut Vec<i32>, value: i32) -> (at: usize)
    requires
        is_ascending(ints(old(days)@)),
    ensures
        at <= old(days)@.len(),
        final(days)@ == old(days)@.insert(at as int, value),
        ints(final(days)@) == ascending(ints(old(days)@).push(value as int)),
{
    let mut at: usize = 0;
    while at < days.len() && days[at] <= value
        invariant
            at <= days@.len(),
            days@ == old(days)@,
            forall|k: int| 0 <= k < at ==> days@[k] <= value,
        decreases days@.len() - at,
    {
        at += 1;
    }
    proof {
        let before = ints(days@);
        let after = ints(days@.insert(at as int, value));
        assert(after =~= before.insert(at as int, value as int));
        assert forall|i: int, j: int| 0 <= i < j < after.len() implies after[i] <= after[j] by {
            if j < at {
                assert(before[i] <= before[j]);
            } else if i > at {
                assert(before[i - 1] <= before[j - 1]);
            } else if i < at && j > at {
                assert(before[i] <= before[j - 1]);
            } else if i == at {
                assert(before[at as int] <= before[j - 1]);
            }
        }
        to_multiset_insert(before, at as int, value as int);
        to_multiset_build(before, value as int);
        lemma_ascending_is_unique(after, before.push(value as int));
    }
    days.insert(at, value);
    at
}

/// The history of the occurrences `events` as seen from `now`: for each
/// event, how many days ago each of its occurrences was, the most recent
/// first. The events stand in the order in which they first occur in
/// `events`. An occurrence after `now` counts negative.
pub fn get_days_since_now(events: &[EventOccurrence], now: Date) -> (days_since: EventMap<Vec<i32>>)
    ensures
        lists_of(&days_since) == history_of(events@, now),
        forall|name: Seq<char>| #[trigger]
            days_since.contains(name) <==> occurrences_of(events@, name).len() > 0,
        forall|name: Seq<char>| #[trigger]
            days_since.contains(name) ==> {
                &&& days_since.value_of(name)@.len() == occurrences_of(events@, name).len()
                &&& is_ascending(ints(days_since.value_of(name)@))
            },
        all_occurred(lists_of(&days_since)),
        days_in_range(lists_of(&days_since)),
{
    let mut days_since: EventMap<Vec<i32>> = EventMap::new();
    let mut k: usize = 0;
    proof {
        assert(lists_of(&days_since) =~= history_of(events@.take(0), now));
    }
    while k < events.len()
        invariant
            k <= events@.len(),
            lists_of(&days_since) == history_of(events@.take(k as int), now),
            all_occurred(lists_of(&days_since)),
            days_in_range(lists_of(&days_since)),
        decreases events@.len() - k,
    {
        let occurrence = &events[k];
        let days = now.days_since(occurrence.date);
        let ghost history = lists_of(&days_since);
        proof {
            assert(events@.take(k + 1) =~= events@.take(k as int).push(*occurrence));
            lemma_history_push(events@.take(k as int), *occurrence, now);
            lemma_changed_names(days_since.entries(), list_entry());
        }
        match days_since.index_of(&occurrence.name) {
            Some(i) => {
                proof {
                    lemma_index_of_name(days_since.entries(), occurrence.name@);
                    lemma_history_entry(events@.take(k as int), now, i as int);
                }
                let mut list = days_since.replace_at(i, Vec::new());
                let ghost before = list@;
                let at = insert_ascending(&mut list, days);
                proof {
                    assert(ints(list@) =~= ints(before).insert(at as int, days as int));
                }
                days_since.replace_at(i, list);
                proof {
                    assert(lists_of(&days_since) =~= history.update(
                        i as int,
                        (occurrence.name@, ints(list@)),
                    ));
                }
            },
            None => {
                let mut list: Vec<i32> = Vec::new();
                list.push(days);
                let name = occurrence.name.clone();
                proof {
                    assert(ints(list@) =~= seq![days as int]);
                    days_since.entries().lemma_push_map_commute(list_entry(), (name@, list));
                }
                days_since.push_new(name, list);
            },
        }
        k += 1;
    }
    proof {
        assert(events@.take(k as int) =~= events@);
        assert forall|name: Seq<char>| #[trigger]
            days_since.contains(name) <==> occurrences_of(events@, name).len() > 0 by {
            lemma_lists_by_name(&days_since, name);
            lemma_history_groups_by_name(events@, now, name);
        }
        assert forall|name: Seq<char>| #[trigger] days_since.contains(name) implies {
            &&& days_since.value_of(name)@.len() == occurrences_of(events@, name).len()
            &&& is_ascending(ints(days_since.value_of(name)@))
        } by {
            lemma_lists_by_name(&days_since, name);
            lemma_history_groups_by_name(events@, now, name);
        }
    }
    days_since
}

/// The differences between each number of `days` and the one before it.
fn differences(days: &Vec<i32>) -> (gaps: Vec<i32>)
    requires
        days@.len() >= 2,
        all_within(gaps_of(ints(days@)), i32::MIN as int, i32::MAX as int),
    ensures
        ints(gaps@) == gaps_of(ints(days@)),
{
    let ghost wanted = gaps_of(ints(days@));
    let mut gaps: Vec<i32> = Vec::new();
    let mut i: usize = 1;
    while i < days.len()
        invariant
            1 <= i <= days.len(),
            wanted == gaps_of(ints(days@)),
            all_within(wanted, i32::MIN as int, i32::MAX as int),
            ints(gaps@) == wanted.take(i - 1),
        decreases days.len() - i,
    {
        proof {
            assert(wanted[i - 1] == days[i as int] - days[i - 1]);
        }
        let gap = days[i] - days[i - 1];
        proof {
            assert(ints(gaps@.push(gap)) =~= ints(gaps@).push(gap as int));
            assert(wanted.take(i as int) =~= wanted.take(i - 1).push(wanted[i - 1]));
        }
        gaps.push(gap);
        i += 1;
    }
    proof {
        assert(wanted.take(i - 1) =~= wanted);
    }
    gaps
}

/// The gaps, in days, between the consecutive occurrences of each event. An
/// event that has occurred once only has no gap and is left out.
///
/// Each gap has to be a number that an `i32` can hold, which is so for every
/// history that [`get_days_since_now`] returns.
pub fn get_elapsed_days(days_since: &EventMap<Vec<i32>>) -> (elapsed: EventMap<Vec<i32>>)
    requires
        gaps_fit(lists_of(days_since)),
    ensures
        lists_of(&elapsed) == elapsed_of(lists_of(days_since)),
        forall|name: Seq<char>| #[trigger]
            elapsed.contains(name) <==> days_since.contains(name) && days_since.value_of(
                name,
            )@.len() >= 2,
        forall|name: Seq<char>| #[trigger]
            elapsed.contains(name) ==> {
                &&& elapsed.value_of(name)@.len() == days_since.value_of(name)@.len() - 1
                &&& ints(elapsed.value_of(name)@) == gaps_of(ints(days_since.value_of(name)@))
            },
{
    let ghost all = lists_of(days_since);
    let mut elapsed: EventMap<Vec<i32>> = EventMap::new();
    let mut i: usize = 0;
    while i < days_since.len()
        invariant
            i <= days_since.entries().len(),
            all == lists_of(days_since),
            gaps_fit(all),
            lists_of(&elapsed) == elapsed_of(all.take(i as int)),
        decreases days_since.entries().len() - i,
    {
        let days = days_since.value_at(i);
        proof {
            let seen = all.take(i as int);
            assert(all.take(i + 1) =~= seen.push(all[i as int]));
            seen.lemma_filter_push(all[i as int], has_two_days());
            seen.filter(has_two_days()).lemma_push_map_commute(gaps_entry(), all[i as int]);
        }
        if days.len() >= 2 {
            let gaps = differences(days);
            let name = days_since.name_at(i).clone();
            proof {
                use_type_invariant(days_since);
                lemma_changed_names(days_since.entries(), list_entry());
                lemma_not_yet_named(all, i as int);
                lemma_kept_names(all.take(i as int), has_two_days(), gaps_entry(), name@);
                lemma_changed_names(elapsed.entries(), list_entry());
                elapsed.entries().lemma_push_map_commute(list_entry(), (name@, gaps));
            }
            elapsed.push_new(name, gaps);
        }
        i += 1;
    }
    proof {
        assert(all.take(i as int) =~= all);
        use_type_invariant(days_since);
        assert forall|name: Seq<char>|
            {
                &&& #[trigger] elapsed.contains(name) <==> days_since.contains(name)
                    && days_since.value_of(name)@.len() >= 2
                &&& elapsed.contains(name) ==> {
                    &&& elapsed.value_of(name)@.len() == days_since.value_of(name)@.len() - 1
                    &&& ints(elapsed.value_of(name)@) == gaps_of(
                        ints(days_since.value_of(name)@),
                    )
                }
            } by {
            lemma_lists_by_name(days_since, name);
            lemma_lists_by_name(&elapsed, name);
            lemma_elapsed_by_name(all, name);
        }
    }
    elapsed
}

/// The mean of `numbers`, rounded toward zero.
fn mean(numbers: &Vec<i32>) -> (average: i32)
    requires
        numbers@.len() > 0,
    ensures
        average == average_of(ints(numbers@)),
{
    let ghost all = ints(numbers@);
    let mut total: i128 = 0;
    let mut i: usize = 0;
    while i < numbers.len()
        invariant
            i <= numbers.len(),
            all == ints(numbers@),
            total == sum_of(all.take(i as int)),
            i * i32::MIN <= total <= i * i32::MAX,
        decreases numbers.len() - i,
    {
        proof {
            assert(all.take(i + 1).drop_last() =~= all.take(i as int));
        }
        total = total + numbers[i] as i128;
        i += 1;
    }
    let count = numbers.len() as i128;
    proof {
        assert(all.take(count as int) =~= all);
        if total >= 0 {
            lemma_div_is_ordered(total as int, count * i32::MAX, count as int);
            lemma_div_multiples_vanish(i32::MAX as int, count as int);
        } else {
            lemma_div_is_ordered(-total, count * 0x8000_0000, count as int);
            lemma_div_multiples_vanish(0x8000_0000, count as int);
        }
    }
    (total / count) as i32
}

/// The average gap between the occurrences of each event: the mean of its
/// gaps, rounded toward zero. An event without a gap gets no average.
pub fn get_averages(elapsed: &EventMap<Vec<i32>>) -> (averages: EventMap<i32>)
    ensures
        numbers_of(&averages) == averages_of(lists_of(elapsed)),
        forall|name: Seq<char>| #[trigger]
            averages.contains(name) <==> elapsed.contains(name) && elapsed.value_of(name)@.len()
                > 0,
        forall|name: Seq<char>| #[trigger]
            averages.contains(name) ==> averages.value_of(name) == average_of(
                ints(elapsed.value_of(name)@),
            ),
{
    let ghost all = lists_of(elapsed);
    let mut averages: EventMap<i32> = EventMap::new();
    let mut i: usize = 0;
    while i < elapsed.len()
        invariant
            i <= elapsed.entries().len(),
            all == lists_of(elapsed),
            numbers_of(&averages) == averages_of(all.take(i as int)),
        decreases elapsed.entries().len() - i,
    {
        let gaps = elapsed.value_at(i);
        proof {
            let seen = all.take(i as int);
            assert(all.take(i + 1) =~= seen.push(all[i as int]));
            seen.lemma_filter_push(all[i as int], has_gap());
            seen.filter(has_gap()).lemma_push_map_commute(average_entry(), all[i as int]);
        }
        if gaps.len() > 0 {
            let average = mean(gaps);
            let name = elapsed.name_at(i).clone();
            proof {
                use_type_invariant(elapsed);
                lemma_changed_names(elapsed.entries(), list_entry());
                lemma_not_yet_named(all, i as int);
                lemma_kept_names(all.take(i as int), has_gap(), average_entry(), name@);
                lemma_changed_names(averages.entries(), number_entry());
                averages.entries().lemma_push_map_commute(number_entry(), (name@, average));
            }
            averages.push_new(name, average);
        }
        i += 1;
    }
    proof {
        assert(all.take(i as int) =~= all);
        use_type_invariant(elapsed);
        assert forall|name: Seq<char>|
            {
                &&& #[trigger] averages.contains(name) <==> elapsed.contains(name)
                    && elapsed.value_of(name)@.len() > 0
                &&& averages.contains(name) ==> averages.value_of(name) == average_of(
                    ints(elapsed.value_of(name)@),
                )
            } by {
            lemma_lists_by_name(elapsed, name);
            lemma_numbers_by_name(&averages, name);
            lemma_averages_by_name(all, name);
        }
    }
    averages
}

/// The average of `name` in `averages`, or 0 if it has none.
fn average_or_default(averages: &EventMap<i32>, name: &String) -> (average: i32)
    ensures
        average == average_or_zero(numbers_of(averages), name@),
{
    proof {
        lemma_changed_names(averages.entries(), number_entry());
    }
    match averages.get(name) {
        Some(average) => {
            proof {
                lemma_index_of_name(averages.entries(), name@);
            }
            *average
        },
        None => 0,
    }
}

/// The summary that is displayed: for each event its name, the days since
/// its most recent occurrence, and its average gap, or 0 where it has none.
/// The event that occurred most recently comes first; events that last
/// occurred on the same day keep the order in which `events` holds them.
pub fn sort_events(events: &EventMap<Vec<i32>>, averages: &EventMap<i32>) -> (summary: Vec<
    (String, i32, i32),
>)
    requires
        all_occurred(lists_of(events)),
    ensures
        rows_of(summary@) == summary_of(lists_of(events), numbers_of(averages)),
        summary@.len() == events.entries().len(),
        forall|j: int, k: int|
            0 <= j < k < summary@.len() ==> (#[trigger] summary@[j]).1 <= (#[trigger] summary@[k]).1,
{
    let ghost history = lists_of(events);
    let ghost row = summary_row(history, numbers_of(averages));
    let ghost before = shown_before(history);
    let ghost mut order: Seq<int> = Seq::empty();
    let mut summary: Vec<(String, i32, i32)> = Vec::new();
    let mut i: usize = 0;
    proof {
        assert(order =~= indices(0));
        assert(rows_of(summary@) =~= order.map_values(row));
    }
    while i < events.len()
        invariant
            i <= events.entries().len(),
            order.len() == i,
            summary@.len() == i,
            history == lists_of(events),
            all_occurred(history),
            row == summary_row(history, numbers_of(averages)),
            before == shown_before(history),
            rows_of(summary@) == order.map_values(row),
            sorted_by(order, before),
            order.to_multiset() == indices(i as nat).to_multiset(),
            forall|k: int| 0 <= k < order.len() ==> 0 <= #[trigger] order[k] < i,
        decreases events.entries().len() - i,
    {
        let name = events.name_at(i);
        proof {
            assert(history[i as int].1.len() == events.entries()[i as int].1@.len());
        }
        let days = events.value_at(i)[0];
        let average = average_or_default(averages, name);
        let mut at: usize = summary.len();
        while at > 0 && summary[at - 1].1 > days
            invariant
                at <= summary@.len(),
                forall|k: int| at <= k < summary@.len() ==> (#[trigger] summary@[k]).1 > days,
            decreases at,
        {
            at -= 1;
        }
        let entry = (name.clone(), days, average);
        proof {
            assert(history[i as int].1[0] == days);
            assert(row_entry()(entry) == row(i as int));
            let longer = order.insert(at as int, i as int);
            let shown = summary@.insert(at as int, entry);
            assert forall|k: int| 0 <= k < shown.len() implies rows_of(shown)[k]
                == longer.map_values(row)[k] by {
                if k < at {
                    assert(rows_of(summary@)[k] == row(order[k]));
                } else if k > at {
                    assert(rows_of(summary@)[k - 1] == row(order[k - 1]));
                }
            }
            assert(rows_of(shown) =~= longer.map_values(row));
            assert forall|a: int, b: int| 0 <= a < b < longer.len() implies #[trigger] before(
                longer[a],
                longer[b],
            ) by {
                if b < at {
                    assert(before(order[a], order[b]));
                } else if a > at {
                    assert(before(order[a - 1], order[b - 1]));
                } else if a < at && b > at {
                    assert(before(order[a], order[b - 1]));
                } else if a == at {
                    assert(rows_of(summary@)[b - 1] == row(order[b - 1]));
                    assert(summary@[b - 1].1 > days);
                } else {
                    assert(rows_of(summary@)[at - 1] == row(order[at - 1]));
                    if a < at - 1 {
                        assert(before(order[a], order[at - 1]));
                    }
                    assert(rows_of(summary@)[a] == row(order[a]));
                }
            }
            to_multiset_insert(order, at as int, i as int);
            assert(indices((i + 1) as nat) =~= indices(i as nat).push(i as int));
            to_multiset_build(indices(i as nat), i as int);
            order = longer;
        }
        summary.insert(at, entry);
        i += 1;
    }
    proof {
        let all = indices(history.len());
        lemma_shown_before_is_total(history);
        all.lemma_sort_by_ensures(before);
        lemma_sorted_unique(order, all.sort_by(before), before);
        lemma_summary_is_sorted(history, numbers_of(averages));
        assert forall|j: int, k: int| 0 <= j < k < summary@.len() implies (
        #[trigger] summary@[j]).1 <= (#[trigger] summary@[k]).1 by {
            assert(rows_of(summary@)[j].1 == summary@[j].1);
            assert(rows_of(summary@)[k].1 == summary@[k].1);
        }
    }
    summary
}

/// A history whose day counts are distances of dates has gaps that an `i32`
/// can hold.
pub proof fn lemma_gaps_fit(history: Seq<(Seq<char>, Seq<int>)>)
    requires
        days_in_range(history),
    ensures
        gaps_fit(history),
{
    assert forall|i: int| 0 <= i < history.len() implies all_within(
        gaps_of((#[trigger] history[i]).1),
        i32::MIN as int,
        i32::MAX as int,
    ) by {
        let days = history[i].1;
        let gaps = gaps_of(days);
        assert forall|j: int| 0 <= j < gaps.len() implies i32::MIN <= #[trigger] gaps[j]
            <= i32::MAX by {
            assert(-MAX_DAYS_APART <= days[j] <= MAX_DAYS_APART);
            assert(-MAX_DAYS_APART <= days[j + 1] <= MAX_DAYS_APART);
        }
    }
}

/// The summary of the occurrences `events` as seen from `now`: the history,
/// the gaps and the averages, computed one from the other and put in display
/// order.
pub fn event_details(events: &[EventOccurrence], now: Date) -> (summary: Vec<(String, i32, i32)>)
    ensures
        rows_of(summary@) == details_of(events@, now),
{
    let days_since_now = get_days_since_now(events, now);
    proof {
        lemma_gaps_fit(lists_of(&days_since_now));
    }
    let elapsed = get_elapsed_days(&days_since_now);
    let averages = get_averages(&elapsed);
    sort_events(&days_since_now, &averages)
}

} // verus!
