//! Keeps track of recurring events: how many days ago each one last
//! happened, and how many days usually lie between its occurrences.
//!
//! [`utils`] holds the statistics, from the recorded occurrences to the
//! summary that is displayed. [`model`] says what they are, as mathematical
//! functions of the occurrences, and [`laws`] proves what holds of them
//! whatever the occurrences are. [`date`] holds the calendar, and
//! [`event_map`] the ordered map that the statistics are kept in.
//!
//! The remaining modules hold the state of the pages of the application and
//! what each message does to it, the texts that the pages show, and what is
//! decided about the stored events around the access to the store.

pub mod add_event;
pub mod app;
pub mod calendar;
pub mod database;
pub mod date;
pub mod event_map;
pub mod events;
pub mod labels;
pub mod laws;
pub mod model;
pub mod settings;
pub mod utils;
