//! The records that the statistics are computed from.

use vstd::prelude::*;
use crate::date::{get_date, is_valid_date, Date, InvalidDateError};

verus! {

/// One time that an event happened: the event's name and the day.
#[derive(Debug, Clone)]
pub struct EventOccurrence {
    pub name: String,
    pub date: Date,
}

impl EventOccurrence {
    /// The occurrence of the event `name` on `year`-`month`-`day`, or the
    /// error that no such day exists.
    pub fn new(name: String, year: i32, month: u32, day: u32) -> (result: Result<
        EventOccurrence,
        InvalidDateError,
    >)
        ensures
            match result {
                Ok(occurrence) => {
                    &&& is_valid_date(year as int, month as int, day as int)
                    &&& occurrence.name == name
                    &&& occurrence.date.spec_year() == year
                    &&& occurrence.date.spec_month() == month
                    &&& occurrence.date.spec_day() == day
                },
                Err(error) => {
                    &&& !is_valid_date(year as int, month as int, day as int)
                    &&& error == (InvalidDateError { year, month, day })
                },
            },
    {
        match get_date(year, month, day) {
            Ok(date) => Ok(EventOccurrence { name, date }),
            Err(error) => Err(error),
        }
    }
}

/// The page that shows the summary of the events. It has no state of its
/// own.
#[derive(Debug, Clone, Copy, PartialEq, Eq, Structural)]
pub struct EventsPage {}

impl EventsPage {
    /// The page.
    pub fn new() -> (page: Self)
        ensures
            page == (EventsPage {  }),
    {
        EventsPage {  }
    }
}

impl Default for EventsPage {
    fn default() -> (page: Self)
        ensures
            page == (EventsPage {  }),
    {
        EventsPage::new()
    }
}

} // verus!
