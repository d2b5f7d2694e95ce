use cworm::input::{on_event, Action, Event};

#[test]
fn events_lead_to_actions() {
    assert_eq!(on_event(Event::Key), Action::Quit);
    assert_eq!(on_event(Event::Resize), Action::Clear);
    assert_eq!(on_event(Event::Other), Action::Continue);
}
