//! Calendar dates of the proleptic Gregorian calendar, and the whole days
//! between them.
//!
//! The calendar itself is stated here as spec functions: the leap-year rule,
//! the lengths of the months, and the day number of a date, which counts the
//! days from January 1 of year 1. The executable day arithmetic is done by
//! `chrono`, behind two trusted functions whose contracts are written over
//! these spec functions.

use vstd::prelude::*;

verus! {

/// The first year that a [`Date`] can lie in (262144 BCE).
pub const MIN_YEAR: i32 = -262_143;

/// The last year that a [`Date`] can lie in.
pub const MAX_YEAR: i32 = 262_142;

/// No day number of a [`Date`] is further from zero than this.
pub const MAX_DAY_NUMBER: i32 = 95_944_704;

/// No two values of [`Date`] are more days apart than this.
pub const MAX_DAYS_APART: i32 = 191_889_408;

/// Leap years are the multiples of 4, except the multiples of 100 that are
/// no multiples of 400. Year 0 (1 BCE) and the years before it follow the
/// same rule.
pub open spec fn is_leap_year(year: int) -> bool {
    year % 4 == 0 && (year % 100 != 0 || year % 400 == 0)
}

/// The number of days of `year`.
pub open spec fn days_in_year(year: int) -> int {
    if is_leap_year(year) {
        366
    } else {
        365
    }
}

/// The number of days of `month` (1 to 12) in `year`.
pub open spec fn days_in_month(year: int, month: int) -> int {
    if month == 2 {
        if is_leap_year(year) {
            29
        } else {
            28
        }
    } else if month == 4 || month == 6 || month == 9 || month == 11 {
        30
    } else {
        31
    }
}

/// Whether `year`-`month`-`day` names a day of the calendar within the years
/// that a [`Date`] can hold.
pub open spec fn is_valid_date(year: int, month: int, day: int) -> bool {
    &&& MIN_YEAR <= year <= MAX_YEAR
    &&& 1 <= month <= 12
    &&& 1 <= day <= days_in_month(year, month)
}

/// The days from January 1 of year 1 to January 1 of `year`: the lengths of
/// the years in between, counted negative for the years before year 1.
pub open spec fn days_before_year(year: int) -> int
    decreases
            (if year >= 1 {
                year - 1
            } else {
                1 - year
            }),
{
    if year > 1 {
        days_before_year(year - 1) + days_in_year(year - 1)
    } else if year < 1 {
        days_before_year(year + 1) - days_in_year(year)
    } else {
        0
    }
}

/// The days of `year` that lie before the first day of `month`.
pub open spec fn days_before_month(year: int, month: int) -> int
    decreases month,
{
    if month <= 1 {
        0
    } else {
        days_before_month(year, month - 1) + days_in_month(year, month - 1)
    }
}

/// The day number of `year`-`month`-`day`: January 1 of year 1 is day 1, and
/// each following day has the next number.
pub open spec fn day_number(year: int, month: int, day: int) -> int {
    days_before_year(year) + days_before_month(year, month) + day
}

/// Whether the first date is earlier in the calendar than the second.
pub open spec fn is_before(
    year: int,
    month: int,
    day: int,
    later_year: int,
    later_month: int,
    later_day: int,
) -> bool {
    year < later_year || (year == later_year && (month < later_month || (month == later_month
        && day < later_day)))
}

/// The day of the week of the day with the number `day_number`: 0 for a
/// Sunday, 1 for a Monday, and so on to 6 for a Saturday.
pub open spec fn weekday_of(day_number: int) -> int {
    day_number % 7
}

/// A day of the calendar. Every `Date` exists: the only way to make one is
/// [`get_date`].
#[derive(Clone, Copy, Debug, PartialEq, Eq, Structural)]
pub struct Date {
    year: i32,
    month: u32,
    day: u32,
}

/// The year, month and day that [`get_date`] was asked for, when no such day
/// exists.
#[derive(Clone, Copy, Debug, PartialEq, Eq, Structural)]
pub struct InvalidDateError {
    pub year: i32,
    pub month: u32,
    pub day: u32,
}

impl Date {
    /// The year of this date.
    pub closed spec fn spec_year(&self) -> i32 {
        self.year
    }

    /// The month of this date, 1 to 12.
    pub closed spec fn spec_month(&self) -> u32 {
        self.month
    }

    /// The day of the month of this date, from 1.
    pub closed spec fn spec_day(&self) -> u32 {
        self.day
    }

    /// What holds of every `Date`.
    #[verifier::type_invariant]
    pub open spec fn is_valid(&self) -> bool {
        is_valid_date(self.spec_year() as int, self.spec_month() as int, self.spec_day() as int)
    }

    /// The day number of this date.
    pub open spec fn day_number(&self) -> int {
        day_number(self.spec_year() as int, self.spec_month() as int, self.spec_day() as int)
    }

    /// Whether this date is earlier in the calendar than `other`.
    pub open spec fn is_before(&self, other: Date) -> bool {
        is_before(
            self.spec_year() as int,
            self.spec_month() as int,
            self.spec_day() as int,
            other.spec_year() as int,
            other.spec_month() as int,
            other.spec_day() as int,
        )
    }

    /// The whole days from `earlier` to this date; negative if `earlier` is
    /// the later of the two.
    pub open spec fn spec_days_since(&self, earlier: Date) -> int {
        self.day_number() - earlier.day_number()
    }

    /// The year of this date.
    #[verifier::when_used_as_spec(spec_year)]
    pub fn year(&self) -> (year: i32)
        ensures
            year == self.spec_year(),
            MIN_YEAR <= year <= MAX_YEAR,
    {
        proof {
            use_type_invariant(self);
        }
        self.year
    }

    /// The month of this date, 1 to 12.
    #[verifier::when_used_as_spec(spec_month)]
    pub fn month(&self) -> (month: u32)
        ensures
            month == self.spec_month(),
            1 <= month <= 12,
    {
        proof {
            use_type_invariant(self);
        }
        self.month
    }

    /// The day of the month of this date, from 1.
    #[verifier::when_used_as_spec(spec_day)]
    pub fn day(&self) -> (day: u32)
        ensures
            day == self.spec_day(),
            1 <= day <= days_in_month(self.spec_year() as int, self.spec_month() as int),
    {
        proof {
            use_type_invariant(self);
        }
        self.day
    }

    /// The day of the week of this date, as the number of days since the
    /// last Sunday: 0 for a Sunday, 1 for a Monday, and so on to 6 for a
    /// Saturday.
    pub fn weekday(&self) -> (days_from_sunday: u32)
        ensures
            days_from_sunday == weekday_of(self.day_number()),
            days_from_sunday < 7,
    {
        let first = Date { year: 1, month: 1, day: 1 };
        proof {
            assert(first.day_number() == 1) by {
                reveal_with_fuel(days_before_month, 2);
            }
        }
        let number: i32 = self.days_since(first) + 1;
        let rest: i32 = number % 7;
        if rest < 0 {
            (rest + 7) as u32
        } else {
            rest as u32
        }
    }

    /// The whole days from `earlier` to this date. A later `earlier` gives a
    /// negative count.
    pub fn days_since(&self, earlier: Date) -> (days: i32)
        ensures
            days == self.spec_days_since(earlier),
            -MAX_DAYS_APART <= days <= MAX_DAYS_APART,
            days < 0 <==> self.is_before(earlier),
            days == 0 <==> *self == earlier,
    {
        proof {
            use_type_invariant(self);
            use_type_invariant(earlier);
            lemma_day_number_order(
                self.year as int,
                self.month as int,
                self.day as int,
                earlier.year as int,
                earlier.month as int,
                earlier.day as int,
            );
            lemma_day_number_bounds(self.year as int, self.month as int, self.day as int);
            lemma_day_number_bounds(earlier.year as int, earlier.month as int, earlier.day as int);
        }
        let days = chrono_days_between(
            self.year,
            self.month,
            self.day,
            earlier.year,
            earlier.month,
            earlier.day,
        );
        match days {
            Some(days) => days as i32,
            None => 0,
        }
    }
}

/// Whether `chrono` has the date `year`-`month`-`day`.
///
/// Trusted: `chrono::NaiveDate::from_ymd_opt` returns `Some` exactly for the
/// days that exist in the proleptic Gregorian calendar, in the years from
/// [`MIN_YEAR`] to [`MAX_YEAR`].
#[verifier::external_body]
fn chrono_date_exists(year: i32, month: u32, day: u32) -> (found: bool)
    ensures
        found == is_valid_date(year as int, month as int, day as int),
{
    chrono::NaiveDate::from_ymd_opt(year, month, day).is_some()
}

/// The whole days from the second date to the first, by `chrono`; `None` if
/// either date does not exist.
///
/// Trusted: `chrono::NaiveDate::from_ymd_opt` makes a date of each triple
/// that [`is_valid_date`] accepts and of no other, and
/// `chrono::NaiveDate::signed_duration_since` followed by
/// `chrono::TimeDelta::num_days` gives the days between two dates of the
/// proleptic Gregorian calendar, which is the difference of their day numbers.
#[verifier::external_body]
fn chrono_days_between(
    later_year: i32,
    later_month: u32,
    later_day: u32,
    earlier_year: i32,
    earlier_month: u32,
    earlier_day: u32,
) -> (days: Option<i64>)
    ensures
        match days {
            Some(days) => {
                &&& is_valid_date(later_year as int, later_month as int, later_day as int)
                &&& is_valid_date(earlier_year as int, earlier_month as int, earlier_day as int)
                &&& days == day_number(later_year as int, later_month as int, later_day as int)
                    - day_number(earlier_year as int, earlier_month as int, earlier_day as int)
            },
            None => !is_valid_date(later_year as int, later_month as int, later_day as int)
                || !is_valid_date(earlier_year as int, earlier_month as int, earlier_day as int),
        },
{
    let later = chrono::NaiveDate::from_ymd_opt(later_year, later_month, later_day)?;
    let earlier = chrono::NaiveDate::from_ymd_opt(earlier_year, earlier_month, earlier_day)?;
    Some(later.signed_duration_since(earlier).num_days())
}

/// Makes the date `year`-`month`-`day`, or reports that no such day exists.
pub fn get_date(year: i32, month: u32, day: u32) -> (result: Result<Date, InvalidDateError>)
    ensures
        match result {
            Ok(date) => {
                &&& is_valid_date(year as int, month as int, day as int)
                &&& date.spec_year() == year
                &&& date.spec_month() == month
                &&& date.spec_day() == day
            },
            Err(error) => {
                &&& !is_valid_date(year as int, month as int, day as int)
                &&& error == (InvalidDateError { year, month, day })
            },
        },
{
    if chrono_date_exists(year, month, day) {
        Ok(Date { year, month, day })
    } else {
        Err(InvalidDateError { year, month, day })
    }
}

/// The number of days of `month` in `year`, which is also the day of the
/// month of its last day. It is counted as the days from the first of the
/// month to the first of the next one, so both of these have to exist: the
/// error names the first of the two that does not.
pub fn last_day_of_month(year: i32, month: u32) -> (result: Result<i32, InvalidDateError>)
    ensures
        match result {
            Ok(days) => {
                &&& is_valid_date(year as int, month as int, 1)
                &&& !(year == MAX_YEAR && month == 12)
                &&& days == days_in_month(year as int, month as int)
            },
            Err(error) => {
                if !is_valid_date(year as int, month as int, 1) {
                    error == (InvalidDateError { year, month, day: 1 })
                } else {
                    &&& year == MAX_YEAR
                    &&& month == 12
                    &&& error == (InvalidDateError { year: (year + 1) as i32, month: 1, day: 1 })
                }
            },
        },
{
    let first = match get_date(year, month, 1) {
        Ok(date) => date,
        Err(error) => {
            return Err(error);
        },
    };
    let next_year: i32 = if month == 12 {
        year + 1
    } else {
        year
    };
    let next_month: u32 = if month == 12 {
        1
    } else {
        month + 1
    };
    let next = match get_date(next_year, next_month, 1) {
        Ok(date) => date,
        Err(error) => {
            return Err(error);
        },
    };
    proof {
        lemma_month_length(year as int, month as int);
    }
    Ok(next.days_since(first))
}

/// From the first of a month to the first of the next month there are as
/// many days as the month has.
pub proof fn lemma_month_length(year: int, month: int)
    requires
        1 <= month <= 12,
    ensures
        month < 12 ==> day_number(year, month + 1, 1) - day_number(year, month, 1)
            == days_in_month(year, month),
        month == 12 ==> day_number(year + 1, 1, 1) - day_number(year, month, 1) == days_in_month(
            year,
            month,
        ),
{
    if month == 12 {
        lemma_year_length(year);
        lemma_next_year(year);
    }
}

/// The months of a year add up to the length of the year.
pub proof fn lemma_year_length(year: int)
    ensures
        days_before_month(year, 12) + days_in_month(year, 12) == days_in_year(year),
{
    reveal_with_fuel(days_before_month, 13);
}

/// The first day of the next year follows the last day of this one.
pub proof fn lemma_next_year(year: int)
    ensures
        days_before_year(year + 1) == days_before_year(year) + days_in_year(year),
{
}

/// The day number of a date that exists is at most [`MAX_DAY_NUMBER`] from
/// zero.
pub proof fn lemma_day_number_bounds(year: int, month: int, day: int)
    requires
        is_valid_date(year, month, day),
    ensures
        -MAX_DAY_NUMBER <= day_number(year, month, day) <= MAX_DAY_NUMBER,
{
    lemma_days_before_year_bounds(year);
    lemma_year_length(year);
    lemma_days_before_month_increases(year, month, 12);
    lemma_days_before_month_increases(year, 1, month);
}

/// A later year begins after the end of an earlier one.
pub proof fn lemma_days_before_year_increases(earlier: int, later: int)
    requires
        earlier < later,
    ensures
        days_before_year(earlier) + days_in_year(earlier) <= days_before_year(later),
    decreases later - earlier,
{
    lemma_next_year(later - 1);
    if earlier < later - 1 {
        lemma_days_before_year_increases(earlier, later - 1);
    }
}

/// The day numbers follow the calendar: of two dates that exist, the one
/// that is earlier in the calendar has the smaller day number.
pub proof fn lemma_day_number_order(
    year: int,
    month: int,
    day: int,
    later_year: int,
    later_month: int,
    later_day: int,
)
    requires
        is_valid_date(year, month, day),
        is_valid_date(later_year, later_month, later_day),
    ensures
        is_before(year, month, day, later_year, later_month, later_day) <==> day_number(
            year,
            month,
            day,
        ) < day_number(later_year, later_month, later_day),
        (year == later_year && month == later_month && day == later_day) <==> day_number(
            year,
            month,
            day,
        ) == day_number(later_year, later_month, later_day),
{
    lemma_earlier_date_has_smaller_number(year, month, day, later_year, later_month, later_day);
    lemma_earlier_date_has_smaller_number(later_year, later_month, later_day, year, month, day);
}

proof fn lemma_earlier_date_has_smaller_number(
    year: int,
    month: int,
    day: int,
    later_year: int,
    later_month: int,
    later_day: int,
)
    requires
        is_valid_date(year, month, day),
        is_valid_date(later_year, later_month, later_day),
    ensures
        is_before(year, month, day, later_year, later_month, later_day) ==> day_number(
            year,
            month,
            day,
        ) < day_number(later_year, later_month, later_day),
{
    if year < later_year {
        lemma_days_before_year_increases(year, later_year);
        lemma_year_length(year);
        lemma_days_before_month_increases(year, month, 12);
        lemma_days_before_month_increases(later_year, 1, later_month);
    } else if year == later_year && month < later_month {
        lemma_days_before_month_increases(year, month, later_month);
    }
}

/// A year has at most 366 days, so `year` begins at most `366 * |year - 1|`
/// days from the beginning of year 1.
pub proof fn lemma_days_before_year_bounds(year: int)
    ensures
        year >= 1 ==> 0 <= days_before_year(year) <= 366 * (year - 1),
        year <= 1 ==> 366 * (year - 1) <= days_before_year(year) <= 0,
    decreases
            (if year >= 1 {
                year - 1
            } else {
                1 - year
            }),
{
    if year > 1 {
        lemma_days_before_year_bounds(year - 1);
    } else if year < 1 {
        lemma_days_before_year_bounds(year + 1);
    }
}

/// A later month begins later in the year.
pub proof fn lemma_days_before_month_increases(year: int, earlier: int, later: int)
    requires
        1 <= earlier <= later,
    ensures
        0 <= days_before_month(year, earlier) <= days_before_month(year, later),
        earlier < later ==> days_before_month(year, earlier) + days_in_month(year, earlier)
            <= days_before_month(year, later),
    decreases later,
{
    if earlier < later {
        lemma_days_before_month_increases(year, earlier, later - 1);
    } else {
        lemma_days_before_month_increases_from_january(year, earlier);
    }
}

proof fn lemma_days_before_month_increases_from_january(year: int, month: int)
    requires
        1 <= month,
    ensures
        0 <= days_before_month(year, month),
    decreases month,
{
    if month > 1 {
        lemma_days_before_month_increases_from_january(year, month - 1);
    }
}

} // verus!
