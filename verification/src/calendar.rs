//! The calendar page: the month that is shown, and the grid of its days.

use vstd::prelude::*;
use crate::app::AppMessage;
use crate::date::{
    days_in_month, get_date, is_valid_date, last_day_of_month, weekday_of, day_number, Date,
    InvalidDateError, MAX_YEAR,
};

verus! {

/// The number of cells of the grid: six weeks of seven days.
pub const GRID_CELLS: usize = 42;

/// The month after `month` of `year`, as a year and a month.
pub open spec fn month_after(year: int, month: int) -> (int, int) {
    if month == 12 {
        (year + 1, 1)
    } else {
        (year, month + 1)
    }
}

/// The month before `month` of `year`, as a year and a month.
pub open spec fn month_before(year: int, month: int) -> (int, int) {
    if month == 1 {
        (year - 1, 12)
    } else {
        (year, month - 1)
    }
}

/// The day of the month that cell `i` of the grid shows, or 0 for a cell
/// that stays empty, for a month of `length` days whose first day is
/// `first_weekday` days after a Sunday. The cells are the days of six weeks,
/// each from Sunday to Saturday.
pub open spec fn cell_day(first_weekday: int, length: int, i: int) -> int {
    if first_weekday <= i < first_weekday + length {
        i - first_weekday + 1
    } else {
        0
    }
}

/// The grid of a month of `length` days whose first day is `first_weekday`
/// days after a Sunday.
pub open spec fn grid_of(first_weekday: int, length: int) -> Seq<int> {
    Seq::new(GRID_CELLS as nat, |i: int| cell_day(first_weekday, length, i))
}

/// The grid of a month of `length` days whose first day is `first_weekday`
/// days after a Sunday: for each cell the day that it shows, or 0.
pub fn month_grid(first_weekday: u32, length: u32) -> (cells: Vec<u32>)
    ensures
        cells@.len() == GRID_CELLS,
        cells@.map_values(|day: u32| day as int) == grid_of(first_weekday as int, length as int),
{
    let mut cells: Vec<u32> = Vec::new();
    let mut i: u32 = 0;
    while i < 42
        invariant
            i <= 42,
            cells@.len() == i,
            forall|k: int|
                0 <= k < i ==> cells@[k] == cell_day(first_weekday as int, length as int, k),
        decreases 42 - i,
    {
        let day: u32 = if first_weekday <= i && (i - first_weekday) < length {
            i - first_weekday + 1
        } else {
            0
        };
        cells.push(day);
        i += 1;
    }
    proof {
        assert(cells@.map_values(|day: u32| day as int) =~= grid_of(
            first_weekday as int,
            length as int,
        ));
    }
    cells
}

/// The grid of a month shows each day of the month once, and each day in
/// the column of its weekday, where the first column is that of the Sundays.
pub proof fn lemma_grid_shows_month(year: int, month: int, day: int)
    requires
        1 <= month <= 12,
        1 <= day <= days_in_month(year, month),
    ensures
        ({
            let first_weekday = weekday_of(day_number(year, month, 1));
            let cell = first_weekday + day - 1;
            let grid = grid_of(first_weekday, days_in_month(year, month));
            &&& 0 <= cell < GRID_CELLS
            &&& grid[cell] == day
            &&& forall|i: int| 0 <= i < GRID_CELLS && grid[i] == day ==> i == cell
            &&& weekday_of(day_number(year, month, day)) == cell % 7
        }),
{
}

/// The month that the calendar shows. Its first day exists.
#[derive(Debug, Clone, Copy, PartialEq, Eq, Structural)]
pub struct Calendar {
    month: u32,
    year: i32,
}

impl Calendar {
    /// The month that is shown, 1 to 12.
    pub closed spec fn spec_month(&self) -> u32 {
        self.month
    }

    /// The year of the month that is shown.
    pub closed spec fn spec_year(&self) -> i32 {
        self.year
    }

    /// What holds of every `Calendar`: the month that it shows exists.
    #[verifier::type_invariant]
    pub open spec fn is_valid(&self) -> bool {
        is_valid_date(self.spec_year() as int, self.spec_month() as int, 1)
    }

    /// Whether the calendar shows `month` of `year`.
    pub open spec fn shows(&self, year: int, month: int) -> bool {
        self.spec_year() == year && self.spec_month() == month
    }

    /// Whether `self` is what [`Calendar::update`] makes of the calendar
    /// `before` and the message `message`: the next or the previous month,
    /// if the message asks for it and the first day of that month exists, and
    /// `before` otherwise.
    pub open spec fn spec_month_after(&self, before: Calendar, message: AppMessage) -> bool {
        let wanted = before.wanted_month(message);
        if is_valid_date(wanted.0, wanted.1, 1) {
            self.shows(wanted.0, wanted.1)
        } else {
            self.shows(before.spec_year() as int, before.spec_month() as int)
        }
    }

    /// The year and the month that `message` asks this calendar to show:
    /// the month after or before the one that it shows, or that month itself
    /// for a message that is not about the calendar.
    pub open spec fn wanted_month(&self, message: AppMessage) -> (int, int) {
        let year = self.spec_year() as int;
        let month = self.spec_month() as int;
        match message {
            AppMessage::NextMonth => month_after(year, month),
            AppMessage::PreviousMonth => month_before(year, month),
            _ => (year, month),
        }
    }

    /// The calendar that shows the month of `today`.
    pub fn new(today: Date) -> (calendar: Self)
        ensures
            calendar.spec_year() == today.spec_year(),
            calendar.spec_month() == today.spec_month(),
    {
        Calendar { month: today.month(), year: today.year() }
    }

    /// The month that is shown, 1 to 12.
    #[verifier::when_used_as_spec(spec_month)]
    pub fn month(&self) -> (month: u32)
        ensures
            month == self.spec_month(),
            1 <= month <= 12,
    {
        proof {
            use_type_invariant(self);
        }
        self.month
    }

    /// The year of the month that is shown.
    #[verifier::when_used_as_spec(spec_year)]
    pub fn year(&self) -> (year: i32)
        ensures
            year == self.spec_year(),
    {
        self.year
    }

    /// Moves to the next month on [`AppMessage::NextMonth`] and to the
    /// previous one on [`AppMessage::PreviousMonth`]; other messages change
    /// nothing. Where the first day of the month to move to does not exist,
    /// the calendar stays as it is and the error names that day.
    pub fn update(&mut self, message: &AppMessage) -> (result: Result<(), InvalidDateError>)
        ensures
            final(self).spec_month_after(*old(self), *message),
            match result {
                Ok(_) => is_valid_date(
                    old(self).wanted_month(*message).0,
                    old(self).wanted_month(*message).1,
                    1,
                ),
                Err(error) => {
                    &&& !is_valid_date(
                        old(self).wanted_month(*message).0,
                        old(self).wanted_month(*message).1,
                        1,
                    )
                    &&& error.year == old(self).wanted_month(*message).0
                    &&& error.month == old(self).wanted_month(*message).1
                    &&& error.day == 1
                },
            },
    {
        proof {
            use_type_invariant(&*self);
        }
        let (year, month): (i32, u32) = match message {
            AppMessage::NextMonth => {
                if self.month == 12 {
                    (self.year + 1, 1)
                } else {
                    (self.year, self.month + 1)
                }
            },
            AppMessage::PreviousMonth => {
                if self.month == 1 {
                    (self.year - 1, 12)
                } else {
                    (self.year, self.month - 1)
                }
            },
            _ => {
                return Ok(());
            },
        };
        match get_date(year, month, 1) {
            Ok(first) => {
                *self = Calendar { month, year };
                Ok(())
            },
            Err(error) => Err(error),
        }
    }

    /// The grid of the month that is shown: 42 cells, the days of six weeks
    /// from Sunday to Saturday, each with the day of the month that it shows,
    /// or 0 for a cell before the first or after the last day of the month.
    ///
    /// The length of the month is counted up to the first day of the next
    /// month, so in the last month that a [`Date`] can lie in there is an
    /// error instead, which names that day.
    pub fn cells(&self) -> (result: Result<Vec<u32>, InvalidDateError>)
        ensures
            match result {
                Ok(cells) => {
                    &&& !(self.spec_year() == MAX_YEAR && self.spec_month() == 12)
                    &&& cells@.map_values(|day: u32| day as int) == grid_of(
                        weekday_of(day_number(self.spec_year() as int, self.spec_month() as int, 1)),
                        days_in_month(self.spec_year() as int, self.spec_month() as int),
                    )
                },
                Err(error) => {
                    &&& self.spec_year() == MAX_YEAR
                    &&& self.spec_month() == 12
                    &&& error == (InvalidDateError { year: (MAX_YEAR + 1) as i32, month: 1, day: 1 })
                },
            },
    {
        proof {
            use_type_invariant(self);
        }
        let first = match get_date(self.year, self.month, 1) {
            Ok(first) => first,
            Err(error) => {
                return Err(error);
            },
        };
        let length = match last_day_of_month(self.year, self.month) {
            Ok(length) => length,
            Err(error) => {
                return Err(error);
            },
        };
        Ok(month_grid(first.weekday(), length as u32))
    }
}

} // verus!
