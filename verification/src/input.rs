//! What the screensaver does about events at the terminal.

use vstd::prelude::*;

verus! {

/// How long to wait for an event before the next frame, in milliseconds.
pub const FRAME_MS: u64 = 16;

/// An event at the terminal.
#[derive(Clone, Copy, Debug, PartialEq, Eq, Structural)]
pub enum Event {
    /// A key was pressed.
    Key,
    /// The terminal has a new size.
    Resize,
    /// Anything else.
    Other,
}

/// What to do next.
#[derive(Clone, Copy, Debug, PartialEq, Eq, Structural)]
pub enum Action {
    /// End the screensaver.
    Quit,
    /// Clear the terminal, drop all events that are already waiting, and go on.
    Clear,
    /// Go on with the next frame.
    Continue,
}

/// Decides what an event leads to: any key ends the screensaver, and a new size leaves old cells
/// behind that have to go.
pub fn on_event(event: Event) -> (r: Action)
    ensures
        r == Action::Quit <==> event == Event::Key,
        r == Action::Clear <==> event == Event::Resize,
        r == Action::Continue <==> event == Event::Other,
{
    match event {
        Event::Key => Action::Quit,
        Event::Resize => Action::Clear,
        Event::Other => Action::Continue,
    }
}

} // verus!
