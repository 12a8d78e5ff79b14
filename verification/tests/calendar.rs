use since_when::app::AppMessage;
use since_when::calendar::{month_grid, Calendar};
use since_when::date::{get_date, InvalidDateError, MAX_YEAR, MIN_YEAR};

fn calendar(year: i32, month: u32) -> Calendar {
    Calendar::new(get_date(year, month, 15).unwrap())
}

#[test]
fn calendar_starts_in_the_month_of_today() {
    let shown = Calendar::new(get_date(2023, 4, 22).unwrap());
    assert_eq!(shown.year(), 2023);
    assert_eq!(shown.month(), 4);
}

#[test]
fn next_month_stays_in_the_year() {
    let mut shown = calendar(2023, 4);
    assert_eq!(shown.update(&AppMessage::NextMonth), Ok(()));
    assert_eq!((shown.year(), shown.month()), (2023, 5));
}

#[test]
fn next_month_after_december_is_january() {
    let mut shown = calendar(2023, 12);
    assert_eq!(shown.update(&AppMessage::NextMonth), Ok(()));
    assert_eq!((shown.year(), shown.month()), (2024, 1));
}

#[test]
fn previous_month_stays_in_the_year() {
    let mut shown = calendar(2023, 4);
    assert_eq!(shown.update(&AppMessage::PreviousMonth), Ok(()));
    assert_eq!((shown.year(), shown.month()), (2023, 3));
}

#[test]
fn previous_month_before_january_is_december() {
    let mut shown = calendar(2023, 1);
    assert_eq!(shown.update(&AppMessage::PreviousMonth), Ok(()));
    assert_eq!((shown.year(), shown.month()), (2022, 12));
}

#[test]
fn twelve_months_forward_and_back() {
    let mut shown = calendar(2020, 7);
    for _ in 0..12 {
        shown.update(&AppMessage::NextMonth).unwrap();
    }
    assert_eq!((shown.year(), shown.month()), (2021, 7));
    for _ in 0..24 {
        shown.update(&AppMessage::PreviousMonth).unwrap();
    }
    assert_eq!((shown.year(), shown.month()), (2019, 7));
}

#[test]
fn other_messages_leave_the_calendar() {
    let mut shown = calendar(2023, 4);
    let messages = vec![
        AppMessage::DayClicked(3, 5, 2024),
        AppMessage::AddEvent,
        AppMessage::UpdateEvent,
        AppMessage::DeleteEvent,
        AppMessage::CalendarWindow,
        AppMessage::EventsWindow,
        AppMessage::TextEvent("oil".to_string()),
    ];
    for message in messages {
        assert_eq!(shown.update(&message), Ok(()));
        assert_eq!((shown.year(), shown.month()), (2023, 4));
    }
}

#[test]
fn no_month_after_the_last() {
    let mut shown = calendar(MAX_YEAR, 12);
    assert_eq!(
        shown.update(&AppMessage::NextMonth),
        Err(InvalidDateError { year: MAX_YEAR + 1, month: 1, day: 1 })
    );
    assert_eq!((shown.year(), shown.month()), (MAX_YEAR, 12));
    assert_eq!(shown.update(&AppMessage::PreviousMonth), Ok(()));
    assert_eq!((shown.year(), shown.month()), (MAX_YEAR, 11));
}

#[test]
fn no_month_before_the_first() {
    let mut shown = calendar(MIN_YEAR, 1);
    assert_eq!(
        shown.update(&AppMessage::PreviousMonth),
        Err(InvalidDateError { year: MIN_YEAR - 1, month: 12, day: 1 })
    );
    assert_eq!((shown.year(), shown.month()), (MIN_YEAR, 1));
    assert_eq!(shown.update(&AppMessage::NextMonth), Ok(()));
    assert_eq!((shown.year(), shown.month()), (MIN_YEAR, 2));
}

#[test]
fn grid_of_a_month_that_starts_on_a_saturday() {
    // April 2023: the first is a Saturday, and the month has 30 days.
    let mut expected = vec![0u32; 42];
    for day in 1..=30u32 {
        expected[(5 + day) as usize] = day;
    }
    assert_eq!(calendar(2023, 4).cells(), Ok(expected));
}

#[test]
fn grid_of_a_month_that_starts_on_a_sunday() {
    // October 2023: the first is a Sunday, and the month has 31 days.
    let cells = calendar(2023, 10).cells().unwrap();
    assert_eq!(cells.len(), 42);
    assert_eq!(&cells[0..7], &[1, 2, 3, 4, 5, 6, 7]);
    assert_eq!(&cells[28..35], &[29, 30, 31, 0, 0, 0, 0]);
    assert_eq!(&cells[35..42], &[0, 0, 0, 0, 0, 0, 0]);
}

#[test]
fn grid_of_february() {
    // February 2024: the first is a Thursday, and the month has 29 days.
    let leap = calendar(2024, 2).cells().unwrap();
    assert_eq!(&leap[0..7], &[0, 0, 0, 0, 1, 2, 3]);
    assert_eq!(&leap[28..35], &[25, 26, 27, 28, 29, 0, 0]);
    // February 2015: the first is a Sunday, and the month has 28 days.
    let short = calendar(2015, 2).cells().unwrap();
    assert_eq!(&short[0..7], &[1, 2, 3, 4, 5, 6, 7]);
    assert_eq!(&short[21..28], &[22, 23, 24, 25, 26, 27, 28]);
    assert_eq!(&short[28..42], &[0; 14]);
}

#[test]
fn grid_of_the_longest_month_that_starts_latest() {
    // July 2023: the first is a Saturday, and the month has 31 days.
    let cells = calendar(2023, 7).cells().unwrap();
    assert_eq!(&cells[0..7], &[0, 0, 0, 0, 0, 0, 1]);
    assert_eq!(&cells[35..42], &[30, 31, 0, 0, 0, 0, 0]);
}

#[test]
fn grid_of_the_last_month_is_an_error() {
    assert_eq!(
        calendar(MAX_YEAR, 12).cells(),
        Err(InvalidDateError { year: MAX_YEAR + 1, month: 1, day: 1 })
    );
    assert!(calendar(MAX_YEAR, 11).cells().is_ok());
    assert!(calendar(MIN_YEAR, 1).cells().is_ok());
}

#[test]
fn month_grid_from_weekday_and_length() {
    let cells = month_grid(2, 3);
    let mut expected = vec![0u32; 42];
    expected[2] = 1;
    expected[3] = 2;
    expected[4] = 3;
    assert_eq!(cells, expected);
    assert_eq!(month_grid(0, 0), vec![0u32; 42]);
    assert_eq!(month_grid(42, 31), vec![0u32; 42]);
    assert_eq!(month_grid(u32::MAX, u32::MAX), vec![0u32; 42]);
    let full: Vec<u32> = (1..=42).collect();
    assert_eq!(month_grid(0, 42), full);
    assert_eq!(month_grid(0, u32::MAX), full);
    assert_eq!(month_grid(41, 5)[41], 1);
}

#[test]
fn weekdays_count_from_sunday() {
    let weekday = |year, month, day| get_date(year, month, day).unwrap().weekday();
    assert_eq!(weekday(2015, 9, 8), 2);
    assert_eq!(weekday(-308, 3, 14), 5);
    assert_eq!(weekday(2023, 4, 22), 6);
    assert_eq!(weekday(2023, 4, 23), 0);
    assert_eq!(weekday(2023, 4, 24), 1);
    assert_eq!(weekday(1, 1, 1), 1);
    assert_eq!(weekday(0, 12, 31), 0);
    assert_eq!(weekday(1970, 1, 1), 4);
    assert_eq!(weekday(2000, 2, 29), 2);
    assert_eq!(weekday(MIN_YEAR, 1, 1), 4);
    assert_eq!(weekday(MAX_YEAR, 12, 31), 1);
}
