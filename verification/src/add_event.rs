//! The page on which an event is added, updated or deleted.

use vstd::prelude::*;
use crate::app::AppMessage;

verus! {

/// What has to be done to the stored events after a message.
#[derive(Debug, Clone)]
pub enum StoreAction {
    /// Nothing.
    Nothing,
    /// Store a new event, with its first occurrence on the given day.
    AddEvent { name: String, year: i32, month: u32, day: u32 },
    /// Store one more occurrence of an event, on the given day.
    UpdateEvent { name: String, year: i32, month: u32, day: u32 },
    /// Remove an event and all its occurrences.
    DeleteEvent { name: String },
}

/// The state of the page: the name of the event that is being typed.
#[derive(Debug, Clone)]
pub struct AddEvent {
    event: String,
}

impl AddEvent {
    /// The name that has been typed.
    pub closed spec fn spec_event(&self) -> Seq<char> {
        self.event@
    }

    /// Whether `self` and `action` are what [`AddEvent::update`] makes of
    /// the page `before` and the message `message` on the chosen day.
    ///
    /// Typed text becomes the name. The three buttons ask for the stored
    /// events to be changed under the name that has been typed, unless it is
    /// empty. No other message does anything.
    pub open spec fn spec_after(
        &self,
        before: AddEvent,
        message: AppMessage,
        day: u32,
        month: u32,
        year: i32,
        action: StoreAction,
    ) -> bool {
        let name = before.spec_event();
        match message {
            AppMessage::TextEvent(text) => {
                &&& self.spec_event() == text@
                &&& action == StoreAction::Nothing
            },
            AppMessage::AddEvent => {
                &&& self.spec_event() == name
                &&& if name.len() == 0 {
                    action == StoreAction::Nothing
                } else {
                    &&& action matches StoreAction::AddEvent { name: n, year: y, month: m, day: d }
                    &&& n@ == name
                    &&& y == year
                    &&& m == month
                    &&& d == day
                }
            },
            AppMessage::UpdateEvent => {
                &&& self.spec_event() == name
                &&& if name.len() == 0 {
                    action == StoreAction::Nothing
                } else {
                    &&& action matches StoreAction::UpdateEvent {
                        name: n,
                        year: y,
                        month: m,
                        day: d,
                    }
                    &&& n@ == name
                    &&& y == year
                    &&& m == month
                    &&& d == day
                }
            },
            AppMessage::DeleteEvent => {
                &&& self.spec_event() == name
                &&& if name.len() == 0 {
                    action == StoreAction::Nothing
                } else {
                    &&& action matches StoreAction::DeleteEvent { name: n }
                    &&& n@ == name
                }
            },
            _ => {
                &&& self.spec_event() == name
                &&& action == StoreAction::Nothing
            },
        }
    }

    /// The page with no name typed.
    pub fn new() -> (page: Self)
        ensures
            page.spec_event() == Seq::<char>::empty(),
    {
        AddEvent { event: String::new() }
    }

    /// The name that has been typed.
    pub fn event(&self) -> (name: &String)
        ensures
            name@ == self.spec_event(),
    {
        &self.event
    }

    /// Takes a message to the next state of the page, and returns what has
    /// to be done to the stored events: see [`AddEvent::spec_after`].
    pub fn update(&mut self, message: AppMessage, day: u32, month: u32, year: i32) -> (action:
        StoreAction)
        ensures
            final(self).spec_after(*old(self), message, day, month, year, action),
    {
        match message {
            AppMessage::AddEvent => {
                if self.event.as_str().is_empty() {
                    StoreAction::Nothing
                } else {
                    StoreAction::AddEvent { name: self.event.clone(), year, month, day }
                }
            },
            AppMessage::UpdateEvent => {
                if self.event.as_str().is_empty() {
                    StoreAction::Nothing
                } else {
                    StoreAction::UpdateEvent { name: self.event.clone(), year, month, day }
                }
            },
            AppMessage::DeleteEvent => {
                if self.event.as_str().is_empty() {
                    StoreAction::Nothing
                } else {
                    StoreAction::DeleteEvent { name: self.event.clone() }
                }
            },
            AppMessage::TextEvent(text) => {
                self.event = text;
                StoreAction::Nothing
            },
            _ => StoreAction::Nothing,
        }
    }
}

impl Default for AddEvent {
    fn default() -> (page: Self)
        ensures
            page.spec_event() == Seq::<char>::empty(),
    {
        AddEvent::new()
    }
}

} // verus!
