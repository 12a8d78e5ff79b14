//! Sizes used when laying out the pages.

use vstd::prelude::*;

verus! {

/// Layout sizes, in pixels, shared by every page.
pub struct Settings {
    text_size: u16,
    add_button_size: u16,
    spacing: u16,
    calendar_text_size: u16,
    calendar_width: u16,
    padding: u16,
}

impl Settings {
    /// The text size.
    pub closed spec fn spec_text_size(&self) -> u16 {
        self.text_size
    }

    /// The width of an action button.
    pub closed spec fn spec_add_button_size(&self) -> u16 {
        self.add_button_size
    }

    /// The gap between neighbouring widgets.
    pub closed spec fn spec_spacing(&self) -> u16 {
        self.spacing
    }

    /// The text size of the calendar's month heading.
    pub closed spec fn spec_calendar_text_size(&self) -> u16 {
        self.calendar_text_size
    }

    /// The width and height of one day cell of the calendar.
    pub closed spec fn spec_calendar_width(&self) -> u16 {
        self.calendar_width
    }

    /// The padding inside a widget.
    pub closed spec fn spec_padding(&self) -> u16 {
        self.padding
    }

    /// The default sizes.
    pub fn new() -> (settings: Self)
        ensures
            settings.spec_text_size() == 20,
            settings.spec_add_button_size() == 150,
            settings.spec_spacing() == 20,
            settings.spec_calendar_text_size() == 40,
            settings.spec_calendar_width() == 75,
            settings.spec_padding() == 5,
    {
        Self {
            text_size: 20,
            add_button_size: 150,
            spacing: 20,
            calendar_text_size: 40,
            calendar_width: 75,
            padding: 5,
        }
    }

    /// The text size.
    #[verifier::when_used_as_spec(spec_text_size)]
    pub fn text_size(&self) -> (size: u16)
        ensures
            size == self.spec_text_size(),
    {
        self.text_size
    }

    /// The width of an action button.
    #[verifier::when_used_as_spec(spec_add_button_size)]
    pub fn add_button_size(&self) -> (size: u16)
        ensures
            size == self.spec_add_button_size(),
    {
        self.add_button_size
    }

    /// The gap between neighbouring widgets.
    #[verifier::when_used_as_spec(spec_spacing)]
    pub fn spacing(&self) -> (size: u16)
        ensures
            size == self.spec_spacing(),
    {
        self.spacing
    }

    /// The text size of the calendar's month heading.
    #[verifier::when_used_as_spec(spec_calendar_text_size)]
    pub fn calendar_text_size(&self) -> (size: u16)
        ensures
            size == self.spec_calendar_text_size(),
    {
        self.calendar_text_size
    }

    /// The width and height of one day cell of the calendar.
    #[verifier::when_used_as_spec(spec_calendar_width)]
    pub fn calendar_width(&self) -> (size: u16)
        ensures
            size == self.spec_calendar_width(),
    {
        self.calendar_width
    }

    /// The padding inside a widget.
    #[verifier::when_used_as_spec(spec_padding)]
    pub fn padding(&self) -> (size: u16)
        ensures
            size == self.spec_padding(),
    {
        self.padding
    }
}

impl Default for Settings {
    fn default() -> (settings: Self)
        ensures
            settings.spec_text_size() == 20,
            settings.spec_add_button_size() == 150,
            settings.spec_spacing() == 20,
            settings.spec_calendar_text_size() == 40,
            settings.spec_calendar_width() == 75,
            settings.spec_padding() == 5,
    {
        Self::new()
    }
}

} // verus!
