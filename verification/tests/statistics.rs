use since_when::date::{get_date, Date};
use since_when::event_map::EventMap;
use since_when::events::EventOccurrence;
use since_when::utils::{
    event_details, get_averages, get_days_since_now, get_elapsed_days, sort_events,
};

fn day(year: i32, month: u32, day: u32) -> Date {
    get_date(year, month, day).unwrap()
}

fn occurrence(name: &str, year: i32, month: u32, day_of_month: u32) -> EventOccurrence {
    EventOccurrence { name: name.to_string(), date: day(year, month, day_of_month) }
}

fn lists(entries: &[(&str, Vec<i32>)]) -> EventMap<Vec<i32>> {
    let mut map = EventMap::new();
    for (name, list) in entries {
        map.insert(name.to_string(), list.clone());
    }
    map
}

fn numbers(entries: &[(&str, i32)]) -> EventMap<i32> {
    let mut map = EventMap::new();
    for (name, number) in entries {
        map.insert(name.to_string(), *number);
    }
    map
}

fn names<V>(map: &EventMap<V>) -> Vec<String> {
    (0..map.len()).map(|i| map.name_at(i).clone()).collect()
}

fn row(name: &str, days: i32, average: i32) -> (String, i32, i32) {
    (name.to_string(), days, average)
}

#[test]
fn elapsed_days_are_the_differences_of_neighbours() {
    let days_since = lists(&[
        ("event_0", vec![1, 11, 22, 33, 44]),
        ("event_1", vec![1, 6, 8, 16, 20]),
    ]);
    let elapsed = get_elapsed_days(&days_since);
    assert_eq!(elapsed.len(), 2);
    assert_eq!(elapsed.get(&"event_0".to_string()), Some(&vec![10, 11, 11, 11]));
    assert_eq!(elapsed.get(&"event_1".to_string()), Some(&vec![5, 2, 8, 4]));
}

#[test]
fn elapsed_days_leave_out_events_with_one_occurrence() {
    let days_since = lists(&[("once", vec![7]), ("twice", vec![3, 10]), ("never", vec![])]);
    let elapsed = get_elapsed_days(&days_since);
    assert_eq!(names(&elapsed), vec!["twice".to_string()]);
    assert_eq!(elapsed.get(&"twice".to_string()), Some(&vec![7]));
    assert_eq!(elapsed.get(&"once".to_string()), None);
    assert!(!elapsed.contains_key(&"never".to_string()));
}

#[test]
fn elapsed_days_have_one_entry_less_than_the_history() {
    let days_since = lists(&[("a", vec![0, 1]), ("b", vec![-5, -2, 0, 4, 4, 9])]);
    let elapsed = get_elapsed_days(&days_since);
    assert_eq!(elapsed.get(&"a".to_string()).unwrap().len(), 1);
    assert_eq!(elapsed.get(&"b".to_string()), Some(&vec![3, 2, 4, 0, 5]));
}

#[test]
fn elapsed_days_keep_the_order_of_the_events() {
    let days_since = lists(&[
        ("z", vec![1, 2]),
        ("skipped", vec![1]),
        ("a", vec![1, 3]),
        ("m", vec![1, 4]),
    ]);
    let elapsed = get_elapsed_days(&days_since);
    assert_eq!(names(&elapsed), vec!["z".to_string(), "a".to_string(), "m".to_string()]);
}

#[test]
fn elapsed_days_reach_the_limits_of_the_numbers() {
    let days_since = lists(&[("wide", vec![-1, i32::MAX - 1]), ("back", vec![0, i32::MIN])]);
    let elapsed = get_elapsed_days(&days_since);
    assert_eq!(elapsed.get(&"wide".to_string()), Some(&vec![i32::MAX]));
    assert_eq!(elapsed.get(&"back".to_string()), Some(&vec![i32::MIN]));
}

#[test]
fn averages_are_the_means() {
    let elapsed = lists(&[("foo", vec![1, 11, 22, 33, 44]), ("bar", vec![1, 6, 11, 16, 21])]);
    let averages = get_averages(&elapsed);
    assert_eq!(averages.len(), 2);
    assert_eq!(averages.get(&"foo".to_string()), Some(&22));
    assert_eq!(averages.get(&"bar".to_string()), Some(&11));
}

#[test]
fn average_is_rounded_down_for_a_positive_sum() {
    let averages = get_averages(&lists(&[("event", vec![10, 11, 11, 11])]));
    assert_eq!(averages.get(&"event".to_string()), Some(&10));
}

#[test]
fn average_is_rounded_toward_zero_for_a_negative_sum() {
    let averages = get_averages(&lists(&[("event", vec![-3, -4]), ("other", vec![-1, 0])]));
    assert_eq!(averages.get(&"event".to_string()), Some(&-3));
    assert_eq!(averages.get(&"other".to_string()), Some(&0));
}

#[test]
fn average_of_the_largest_gaps_does_not_overflow() {
    let elapsed = lists(&[
        ("high", vec![i32::MAX, i32::MAX, i32::MAX]),
        ("low", vec![i32::MIN, i32::MIN]),
        ("mixed", vec![i32::MAX, i32::MIN]),
    ]);
    let averages = get_averages(&elapsed);
    assert_eq!(averages.get(&"high".to_string()), Some(&i32::MAX));
    assert_eq!(averages.get(&"low".to_string()), Some(&i32::MIN));
    assert_eq!(averages.get(&"mixed".to_string()), Some(&0));
}

#[test]
fn averages_leave_out_events_without_gaps() {
    let averages = get_averages(&lists(&[("none", vec![]), ("some", vec![4])]));
    assert_eq!(names(&averages), vec!["some".to_string()]);
    assert_eq!(averages.get(&"some".to_string()), Some(&4));
    assert_eq!(averages.get(&"none".to_string()), None);
}

#[test]
fn sorted_events_start_with_the_most_recent() {
    let events = lists(&[("foo", vec![4, 11, 22, 33, 44]), ("bar", vec![1, 6, 11, 16, 21])]);
    let averages = numbers(&[("foo", 22), ("bar", 11)]);
    assert_eq!(sort_events(&events, &averages), vec![row("bar", 1, 11), row("foo", 4, 22)]);
}

#[test]
fn sorted_events_without_an_average_show_zero() {
    let events = lists(&[("old", vec![30, 60]), ("single", vec![12])]);
    let averages = numbers(&[("old", 30)]);
    assert_eq!(sort_events(&events, &averages), vec![row("single", 12, 0), row("old", 30, 30)]);
}

#[test]
fn sorted_events_with_equal_days_keep_their_order() {
    let events = lists(&[
        ("d", vec![5]),
        ("b", vec![2]),
        ("c", vec![5]),
        ("a", vec![2]),
        ("e", vec![-1]),
    ]);
    let averages = numbers(&[]);
    assert_eq!(
        sort_events(&events, &averages),
        vec![row("e", -1, 0), row("b", 2, 0), row("a", 2, 0), row("d", 5, 0), row("c", 5, 0)]
    );
}

#[test]
fn sorted_events_ignore_averages_of_other_events() {
    let events = lists(&[("known", vec![3, 4])]);
    let averages = numbers(&[("stranger", 9), ("known", 1)]);
    assert_eq!(sort_events(&events, &averages), vec![row("known", 3, 1)]);
}

#[test]
fn days_since_now_are_grouped_and_ascending() {
    let events = vec![
        occurrence("A", 2023, 4, 1),
        occurrence("A", 2023, 4, 11),
        occurrence("A", 2023, 4, 6),
        occurrence("A", 2023, 4, 12),
    ];
    let history = get_days_since_now(&events, day(2023, 4, 22));
    assert_eq!(names(&history), vec!["A".to_string()]);
    assert_eq!(history.get(&"A".to_string()), Some(&vec![10, 11, 16, 21]));
}

#[test]
fn days_since_now_count_each_occurrence_once() {
    let events = vec![
        occurrence("oil", 2023, 1, 10),
        occurrence("hair", 2023, 3, 1),
        occurrence("oil", 2023, 1, 10),
        occurrence("oil", 2022, 12, 31),
        occurrence("hair", 2023, 3, 20),
    ];
    let history = get_days_since_now(&events, day(2023, 4, 1));
    assert_eq!(names(&history), vec!["oil".to_string(), "hair".to_string()]);
    assert_eq!(history.get(&"oil".to_string()), Some(&vec![81, 81, 91]));
    assert_eq!(history.get(&"hair".to_string()), Some(&vec![12, 31]));
}

#[test]
fn days_since_now_do_not_depend_on_the_order_of_the_occurrences() {
    let now = day(2024, 3, 1);
    let forward = vec![
        occurrence("x", 2024, 2, 28),
        occurrence("y", 2023, 3, 1),
        occurrence("x", 2024, 2, 29),
        occurrence("x", 2020, 1, 1),
        occurrence("y", 2024, 3, 1),
    ];
    let mut backward = forward.clone();
    backward.reverse();
    let first = get_days_since_now(&forward, now);
    let second = get_days_since_now(&backward, now);
    for name in ["x".to_string(), "y".to_string()] {
        assert_eq!(first.get(&name), second.get(&name));
    }
    assert_eq!(first.get(&"x".to_string()), Some(&vec![1, 2, 1521]));
    assert_eq!(first.get(&"y".to_string()), Some(&vec![0, 366]));
    assert_eq!(names(&first), vec!["x".to_string(), "y".to_string()]);
    assert_eq!(names(&second), vec!["y".to_string(), "x".to_string()]);
}

#[test]
fn days_since_now_are_negative_for_later_dates() {
    let events = vec![occurrence("party", 2023, 12, 31), occurrence("party", 2023, 12, 24)];
    let history = get_days_since_now(&events, day(2023, 12, 25));
    assert_eq!(history.get(&"party".to_string()), Some(&vec![-6, 1]));
}

#[test]
fn no_occurrences_give_empty_results() {
    let now = day(2023, 4, 22);
    let history = get_days_since_now(&[], now);
    assert!(history.is_empty());
    let elapsed = get_elapsed_days(&history);
    assert!(elapsed.is_empty());
    let averages = get_averages(&elapsed);
    assert!(averages.is_empty());
    assert!(sort_events(&history, &averages).is_empty());
    assert!(event_details(&[], now).is_empty());
}

#[test]
fn single_occurrence_has_no_gap_and_no_average() {
    let events = vec![
        occurrence("once", 2023, 4, 20),
        occurrence("often", 2023, 4, 1),
        occurrence("often", 2023, 4, 15),
    ];
    let now = day(2023, 4, 22);
    let history = get_days_since_now(&events, now);
    let elapsed = get_elapsed_days(&history);
    let averages = get_averages(&elapsed);
    assert!(history.contains_key(&"once".to_string()));
    assert!(!elapsed.contains_key(&"once".to_string()));
    assert!(!averages.contains_key(&"once".to_string()));
    assert_eq!(
        sort_events(&history, &averages),
        vec![row("once", 2, 0), row("often", 7, 14)]
    );
}

#[test]
fn all_stages_on_one_event() {
    let events = vec![
        occurrence("A", 2023, 4, 1),
        occurrence("A", 2023, 4, 11),
        occurrence("A", 2023, 4, 6),
        occurrence("A", 2023, 4, 12),
    ];
    let now = day(2023, 4, 22);
    let history = get_days_since_now(&events, now);
    assert_eq!(history.get(&"A".to_string()), Some(&vec![10, 11, 16, 21]));
    let elapsed = get_elapsed_days(&history);
    assert_eq!(elapsed.get(&"A".to_string()), Some(&vec![1, 5, 5]));
    let averages = get_averages(&elapsed);
    assert_eq!(averages.get(&"A".to_string()), Some(&3));
    assert_eq!(sort_events(&history, &averages), vec![row("A", 10, 3)]);
    assert_eq!(event_details(&events, now), vec![row("A", 10, 3)]);
}

#[test]
fn all_stages_from_day_counts() {
    let history = lists(&[("event", vec![1, 11, 22, 33, 44])]);
    let elapsed = get_elapsed_days(&history);
    assert_eq!(elapsed.get(&"event".to_string()), Some(&vec![10, 11, 11, 11]));
    let averages = get_averages(&elapsed);
    assert_eq!(averages.get(&"event".to_string()), Some(&10));
    assert_eq!(sort_events(&history, &averages), vec![row("event", 1, 10)]);
}

#[test]
fn event_details_are_the_same_on_every_run() {
    let events = vec![
        occurrence("water plants", 2023, 4, 20),
        occurrence("oil change", 2022, 10, 3),
        occurrence("haircut", 2023, 4, 20),
        occurrence("oil change", 2023, 4, 3),
        occurrence("haircut", 2023, 2, 9),
        occurrence("water plants", 2023, 4, 13),
        occurrence("water plants", 2023, 4, 6),
    ];
    let now = day(2023, 4, 22);
    let first = event_details(&events, now);
    let second = event_details(&events, now);
    assert_eq!(first, second);
    assert_eq!(
        first,
        vec![row("water plants", 2, 7), row("haircut", 2, 70), row("oil change", 19, 182)]
    );
}
