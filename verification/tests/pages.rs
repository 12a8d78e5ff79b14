use since_when::add_event::{AddEvent, StoreAction};
use since_when::app::{AppMessage, Page, SinceWhen};
use since_when::date::get_date;
use since_when::events::EventsPage;

fn start() -> SinceWhen {
    SinceWhen::new(get_date(2023, 4, 22).unwrap())
}

fn is_nothing(action: &StoreAction) -> bool {
    matches!(action, StoreAction::Nothing)
}

#[test]
fn application_starts_on_the_events_page() {
    let state = start();
    assert_eq!(state.current_page, Page::Events);
    assert_eq!((state.day, state.month, state.year), (0, 0, 0));
    assert_eq!((state.calendar.year(), state.calendar.month()), (2023, 4));
    assert_eq!(state.add_event.event(), "");
    assert_eq!(state.events, EventsPage::new());
    assert_eq!(state.title(), "Since When?");
}

#[test]
fn window_messages_change_the_page() {
    let mut state = start();
    assert!(is_nothing(&state.update(AppMessage::CalendarWindow)));
    assert_eq!(state.current_page, Page::Calendar);
    assert!(is_nothing(&state.update(AppMessage::EventsWindow)));
    assert_eq!(state.current_page, Page::Events);
}

#[test]
fn month_messages_move_the_calendar() {
    let mut state = start();
    assert!(is_nothing(&state.update(AppMessage::NextMonth)));
    assert_eq!((state.calendar.year(), state.calendar.month()), (2023, 5));
    assert!(is_nothing(&state.update(AppMessage::PreviousMonth)));
    assert!(is_nothing(&state.update(AppMessage::PreviousMonth)));
    assert_eq!((state.calendar.year(), state.calendar.month()), (2023, 3));
    assert_eq!(state.current_page, Page::Events);
}

#[test]
fn click_on_a_day_opens_the_add_event_page() {
    let mut state = start();
    state.update(AppMessage::CalendarWindow);
    assert!(is_nothing(&state.update(AppMessage::DayClicked(17, 5, 2023))));
    assert_eq!(state.current_page, Page::AddEvent);
    assert_eq!((state.day, state.month, state.year), (17, 5, 2023));
}

#[test]
fn click_on_an_empty_cell_does_nothing() {
    let mut state = start();
    state.update(AppMessage::CalendarWindow);
    assert!(is_nothing(&state.update(AppMessage::DayClicked(0, 5, 2023))));
    assert_eq!(state.current_page, Page::Calendar);
    assert_eq!((state.day, state.month, state.year), (0, 0, 0));
    state.update(AppMessage::DayClicked(9, 6, 2023));
    state.update(AppMessage::DayClicked(0, 7, 2024));
    assert_eq!(state.current_page, Page::AddEvent);
    assert_eq!((state.day, state.month, state.year), (9, 6, 2023));
}

#[test]
fn buttons_without_a_name_ask_for_nothing() {
    let mut state = start();
    state.update(AppMessage::DayClicked(17, 5, 2023));
    assert!(is_nothing(&state.update(AppMessage::AddEvent)));
    assert!(is_nothing(&state.update(AppMessage::UpdateEvent)));
    assert!(is_nothing(&state.update(AppMessage::DeleteEvent)));
    state.update(AppMessage::TextEvent("x".to_string()));
    state.update(AppMessage::TextEvent(String::new()));
    assert!(is_nothing(&state.update(AppMessage::AddEvent)));
}

#[test]
fn buttons_ask_for_the_typed_name_on_the_chosen_day() {
    let mut state = start();
    state.update(AppMessage::DayClicked(17, 5, 2023));
    assert!(is_nothing(&state.update(AppMessage::TextEvent("oil change".to_string()))));
    assert_eq!(state.add_event.event(), "oil change");
    match state.update(AppMessage::AddEvent) {
        StoreAction::AddEvent { name, year, month, day } => {
            assert_eq!((name.as_str(), year, month, day), ("oil change", 2023, 5, 17))
        }
        other => panic!("{:?}", other),
    }
    match state.update(AppMessage::UpdateEvent) {
        StoreAction::UpdateEvent { name, year, month, day } => {
            assert_eq!((name.as_str(), year, month, day), ("oil change", 2023, 5, 17))
        }
        other => panic!("{:?}", other),
    }
    match state.update(AppMessage::DeleteEvent) {
        StoreAction::DeleteEvent { name } => assert_eq!(name, "oil change"),
        other => panic!("{:?}", other),
    }
    assert_eq!(state.add_event.event(), "oil change");
    assert_eq!(state.current_page, Page::AddEvent);
}

#[test]
fn add_event_page_takes_the_day_it_is_given() {
    let mut page = AddEvent::new();
    assert_eq!(page.event(), "");
    assert!(is_nothing(&page.update(AppMessage::TextEvent("haircut".to_string()), 1, 2, 3)));
    match page.update(AppMessage::UpdateEvent, 29, 2, 2024) {
        StoreAction::UpdateEvent { name, year, month, day } => {
            assert_eq!((name.as_str(), year, month, day), ("haircut", 2024, 2, 29))
        }
        other => panic!("{:?}", other),
    }
    for message in [
        AppMessage::NextMonth,
        AppMessage::PreviousMonth,
        AppMessage::DayClicked(4, 5, 6),
        AppMessage::CalendarWindow,
        AppMessage::EventsWindow,
    ] {
        assert!(is_nothing(&page.update(message, 29, 2, 2024)));
        assert_eq!(page.event(), "haircut");
    }
    assert_eq!(AddEvent::default().event(), "");
}
