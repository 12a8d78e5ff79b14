use since_when::date::{get_date, last_day_of_month, InvalidDateError, MAX_YEAR, MIN_YEAR};

fn days_between(later: (i32, u32, u32), earlier: (i32, u32, u32)) -> i32 {
    let later = get_date(later.0, later.1, later.2).unwrap();
    let earlier = get_date(earlier.0, earlier.1, earlier.2).unwrap();
    later.days_since(earlier)
}

#[test]
fn date_keeps_year_month_and_day() {
    let date = get_date(2023, 4, 22).unwrap();
    assert_eq!(date.year(), 2023);
    assert_eq!(date.month(), 4);
    assert_eq!(date.day(), 22);
}

#[test]
fn date_that_does_not_exist_is_an_error() {
    assert_eq!(get_date(2023, 4, 31), Err(InvalidDateError { year: 2023, month: 4, day: 31 }));
    assert_eq!(get_date(2015, 2, 29), Err(InvalidDateError { year: 2015, month: 2, day: 29 }));
    assert_eq!(get_date(2015, 0, 14), Err(InvalidDateError { year: 2015, month: 0, day: 14 }));
    assert_eq!(get_date(2015, 13, 1), Err(InvalidDateError { year: 2015, month: 13, day: 1 }));
    assert_eq!(get_date(2015, 6, 0), Err(InvalidDateError { year: 2015, month: 6, day: 0 }));
    assert_eq!(get_date(0, 0, 0), Err(InvalidDateError { year: 0, month: 0, day: 0 }));
}

#[test]
fn leap_days_exist_in_leap_years_only() {
    assert!(get_date(2024, 2, 29).is_ok());
    assert!(get_date(2000, 2, 29).is_ok());
    assert!(get_date(1900, 2, 29).is_err());
    assert!(get_date(2100, 2, 29).is_err());
    assert!(get_date(0, 2, 29).is_ok());
    assert!(get_date(-4, 2, 29).is_ok());
    assert!(get_date(-100, 2, 29).is_err());
    assert!(get_date(-400, 2, 29).is_ok());
}

#[test]
fn years_have_a_first_and_a_last() {
    assert!(get_date(MAX_YEAR, 12, 31).is_ok());
    assert!(get_date(MIN_YEAR, 1, 1).is_ok());
    assert_eq!(
        get_date(MAX_YEAR + 1, 1, 1),
        Err(InvalidDateError { year: MAX_YEAR + 1, month: 1, day: 1 })
    );
    assert!(get_date(MIN_YEAR - 1, 12, 31).is_err());
    assert!(get_date(400000, 1, 1).is_err());
    assert!(get_date(-400000, 1, 1).is_err());
    assert!(get_date(i32::MAX, 1, 1).is_err());
    assert!(get_date(i32::MIN, 1, 1).is_err());
}

#[test]
fn days_since_counts_whole_days() {
    assert_eq!(days_between((2014, 1, 1), (2014, 1, 1)), 0);
    assert_eq!(days_between((2014, 1, 1), (2013, 12, 31)), 1);
    assert_eq!(days_between((2014, 1, 1), (2014, 1, 2)), -1);
    assert_eq!(days_between((2014, 1, 1), (2013, 9, 23)), 100);
    assert_eq!(days_between((2014, 1, 1), (2013, 1, 1)), 365);
    assert_eq!(days_between((2014, 1, 1), (2010, 1, 1)), 365 * 4 + 1);
    assert_eq!(days_between((2014, 1, 1), (1614, 1, 1)), 365 * 400 + 97);
    assert_eq!(days_between((2023, 4, 22), (2023, 4, 1)), 21);
}

#[test]
fn days_since_counts_from_the_first_day_of_year_one() {
    assert_eq!(days_between((1970, 1, 1), (1, 1, 1)), 719_162);
    assert_eq!(days_between((2, 1, 1), (1, 1, 1)), 365);
    assert_eq!(days_between((0, 1, 1), (1, 1, 1)), -366);
    assert_eq!(days_between((1, 1, 1), (0, 12, 31)), 1);
    assert_eq!(days_between((0, 3, 1), (0, 2, 28)), 2);
    assert_eq!(days_between((-99, 3, 1), (-100, 3, 1)), 365);
    assert_eq!(days_between((-399, 1, 1), (-400, 1, 1)), 366);
}

#[test]
fn days_since_between_the_first_and_the_last_date() {
    let span = days_between((MAX_YEAR, 12, 31), (MIN_YEAR, 1, 1));
    assert_eq!(span, 191_491_528);
    assert_eq!(days_between((MIN_YEAR, 1, 1), (MAX_YEAR, 12, 31)), -span);
}

#[test]
fn last_day_of_each_month() {
    let lengths = [31, 28, 31, 30, 31, 30, 31, 31, 30, 31, 30, 31];
    for month in 1..=12u32 {
        assert_eq!(last_day_of_month(2023, month), Ok(lengths[month as usize - 1]));
    }
}

#[test]
fn last_day_of_february() {
    assert_eq!(last_day_of_month(2024, 2), Ok(29));
    assert_eq!(last_day_of_month(2023, 2), Ok(28));
    assert_eq!(last_day_of_month(2000, 2), Ok(29));
    assert_eq!(last_day_of_month(1900, 2), Ok(28));
    assert_eq!(last_day_of_month(0, 2), Ok(29));
    assert_eq!(last_day_of_month(-1, 2), Ok(28));
}

#[test]
fn last_day_of_a_month_that_does_not_exist() {
    assert_eq!(
        last_day_of_month(2023, 0),
        Err(InvalidDateError { year: 2023, month: 0, day: 1 })
    );
    assert_eq!(
        last_day_of_month(2023, 13),
        Err(InvalidDateError { year: 2023, month: 13, day: 1 })
    );
    assert_eq!(
        last_day_of_month(2023, u32::MAX),
        Err(InvalidDateError { year: 2023, month: u32::MAX, day: 1 })
    );
    assert_eq!(
        last_day_of_month(i32::MAX, 12),
        Err(InvalidDateError { year: i32::MAX, month: 12, day: 1 })
    );
}

#[test]
fn last_day_of_the_last_month() {
    assert_eq!(last_day_of_month(MAX_YEAR, 11), Ok(30));
    assert_eq!(
        last_day_of_month(MAX_YEAR, 12),
        Err(InvalidDateError { year: MAX_YEAR + 1, month: 1, day: 1 })
    );
    assert_eq!(last_day_of_month(MIN_YEAR, 1), Ok(31));
}

#[test]
fn days_since_is_negative_only_for_an_earlier_date() {
    assert!(days_between((2023, 4, 21), (2023, 4, 22)) < 0);
    assert!(days_between((2023, 3, 31), (2023, 4, 1)) < 0);
    assert!(days_between((2022, 12, 31), (2023, 1, 1)) < 0);
    assert!(days_between((-1, 12, 31), (0, 1, 1)) < 0);
    assert_eq!(days_between((2023, 4, 22), (2023, 4, 22)), 0);
    assert!(days_between((2023, 4, 23), (2023, 4, 22)) > 0);
    assert!(days_between((2024, 1, 1), (2023, 12, 31)) > 0);
}

#[test]
fn dates_are_found_under_utils_too() {
    assert_eq!(since_when::utils::get_date(2023, 4, 22), get_date(2023, 4, 22));
    assert_eq!(since_when::utils::last_day_of_month(2023, 4), Ok(30));
}
