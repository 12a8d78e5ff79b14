//! The state of the application: which page is shown, and what a message
//! from the pages does to it.

use vstd::prelude::*;
use crate::add_event::{AddEvent, StoreAction};
use crate::calendar::Calendar;
use crate::date::Date;
use crate::events::EventsPage;

verus! {

/// What the pages report: a button that was pressed, or text that was typed.
#[derive(Debug, Clone)]
pub enum AppMessage {
    /// Show the next month in the calendar.
    NextMonth,
    /// Show the previous month in the calendar.
    PreviousMonth,
    /// A cell of the calendar was clicked: its day (0 for an empty cell),
    /// month and year.
    DayClicked(u32, u32, i32),
    /// Record a new event on the chosen day.
    AddEvent,
    /// Record one more occurrence of an event on the chosen day.
    UpdateEvent,
    /// Forget an event and all its occurrences.
    DeleteEvent,
    /// Show the calendar.
    CalendarWindow,
    /// Show the summary of the events.
    EventsWindow,
    /// The name of the event was edited.
    TextEvent(String),
}

/// The pages of the application.
#[derive(Debug, Clone, Copy, PartialEq, Eq, Structural)]
pub enum Page {
    Calendar,
    Events,
    AddEvent,
}

/// The state of the application.
pub struct SinceWhen {
    /// The day that was last chosen in the calendar, or 0 if none was.
    pub day: u32,
    /// The month of the chosen day.
    pub month: u32,
    /// The year of the chosen day.
    pub year: i32,
    /// The page that is shown.
    pub current_page: Page,
    /// The month that the calendar shows.
    pub calendar: Calendar,
    /// The page of the summary.
    pub events: EventsPage,
    /// The page on which events are added, updated and deleted.
    pub add_event: AddEvent,
}

impl SinceWhen {
    /// Whether a day has been chosen if the page for adding events is shown.
    pub open spec fn has_chosen_day(&self) -> bool {
        self.current_page == Page::AddEvent ==> self.day != 0
    }

    /// The state in which the application starts: the summary is shown, no
    /// day is chosen, and the calendar shows the month of `today`.
    pub fn new(today: Date) -> (state: Self)
        ensures
            state.day == 0,
            state.month == 0,
            state.year == 0,
            state.current_page == Page::Events,
            state.calendar.spec_year() == today.spec_year(),
            state.calendar.spec_month() == today.spec_month(),
            state.add_event.spec_event() == Seq::<char>::empty(),
            state.has_chosen_day(),
    {
        SinceWhen {
            day: 0,
            month: 0,
            year: 0,
            current_page: Page::Events,
            calendar: Calendar::new(today),
            events: EventsPage::new(),
            add_event: AddEvent::new(),
        }
    }

    /// The title of the application's window.
    pub fn title(&self) -> (title: String)
        ensures
            title@ == "Since When?"@,
    {
        "Since When?".to_string()
    }

    /// Takes a message from the pages to the next state, and returns what
    /// has to be done to the stored events.
    ///
    /// The messages of the calendar move the month that it shows, if there
    /// is a month to move to. A click on a day of the calendar chooses that
    /// day and shows the page for adding events; a click on an empty cell
    /// does nothing. The messages of the page for adding events go to that
    /// page, with the chosen day. The two remaining messages change the page.
    pub fn update(&mut self, message: AppMessage) -> (action: StoreAction)
        ensures
            old(self).has_chosen_day() ==> final(self).has_chosen_day(),
            match message {
                AppMessage::NextMonth | AppMessage::PreviousMonth => {
                    &&& action == StoreAction::Nothing
                    &&& final(self).calendar.spec_month_after(old(self).calendar, message)
                    &&& final(self).day == old(self).day
                    &&& final(self).month == old(self).month
                    &&& final(self).year == old(self).year
                    &&& final(self).current_page == old(self).current_page
                    &&& final(self).add_event == old(self).add_event
                },
                AppMessage::DayClicked(day, month, year) => {
                    &&& action == StoreAction::Nothing
                    &&& final(self).calendar == old(self).calendar
                    &&& final(self).add_event == old(self).add_event
                    &&& if day == 0 {
                        &&& final(self).day == old(self).day
                        &&& final(self).month == old(self).month
                        &&& final(self).year == old(self).year
                        &&& final(self).current_page == old(self).current_page
                    } else {
                        &&& final(self).day == day
                        &&& final(self).month == month
                        &&& final(self).year == year
                        &&& final(self).current_page == Page::AddEvent
                    }
                },
                AppMessage::CalendarWindow | AppMessage::EventsWindow => {
                    &&& action == StoreAction::Nothing
                    &&& final(self).calendar == old(self).calendar
                    &&& final(self).add_event == old(self).add_event
                    &&& final(self).day == old(self).day
                    &&& final(self).month == old(self).month
                    &&& final(self).year == old(self).year
                    &&& final(self).current_page == if message == AppMessage::CalendarWindow {
                        Page::Calendar
                    } else {
                        Page::Events
                    }
                },
                _ => {
                    &&& final(self).add_event.spec_after(
                        old(self).add_event,
                        message,
                        old(self).day,
                        old(self).month,
                        old(self).year,
                        action,
                    )
                    &&& final(self).calendar == old(self).calendar
                    &&& final(self).day == old(self).day
                    &&& final(self).month == old(self).month
                    &&& final(self).year == old(self).year
                    &&& final(self).current_page == old(self).current_page
                },
            },
    {
        match message {
            AppMessage::NextMonth => {
                let _ = self.calendar.update(&AppMessage::NextMonth);
                StoreAction::Nothing
            },
            AppMessage::PreviousMonth => {
                let _ = self.calendar.update(&AppMessage::PreviousMonth);
                StoreAction::Nothing
            },
            AppMessage::DayClicked(day, month, year) => {
                if day != 0 {
                    self.day = day;
                    self.month = month;
                    self.year = year;
                    self.current_page = Page::AddEvent;
                }
                StoreAction::Nothing
            },
            AppMessage::CalendarWindow => {
                self.current_page = Page::Calendar;
                StoreAction::Nothing
            },
            AppMessage::EventsWindow => {
                self.current_page = Page::Events;
                StoreAction::Nothing
            },
            message => self.add_event.update(message, self.day, self.month, self.year),
        }
    }
}

} // verus!
