//! What the viewer does about a key or a turn of the mouse wheel, and where
//! the screen stands over the content.

use vstd::prelude::*;

verus! {

/// The side to which the menu selection moves.
#[derive(Clone, Copy, Debug, PartialEq, Eq, Structural)]
pub enum Direction {
    Left,
    Right,
}

/// What the event loop is told to do.
#[derive(Clone, Copy, Debug, PartialEq, Eq, Structural)]
pub enum Event {
    SelectMenuItem(Direction),
    /// Scroll by this many rows; a positive number scrolls back in time.
    ScrollContents(i32),
    Resize,
    Other,
}

/// A key as the keyboard layer tells it apart.
#[derive(Clone, Copy, Debug, PartialEq, Eq, Structural)]
pub enum Key {
    Left,
    Right,
    Up,
    Down,
    Mouse,
    Resize,
    Other,
}

/// What a key leads to: an event at once, or a look at the mouse first.
#[derive(Clone, Copy, Debug, PartialEq, Eq, Structural)]
pub enum Reaction {
    Report(Event),
    ReadMouse,
}

/// The reaction that each key calls for.
pub open spec fn spec_for_key(key: Key) -> Reaction {
    match key {
        Key::Left => Reaction::Report(Event::SelectMenuItem(Direction::Left)),
        Key::Right => Reaction::Report(Event::SelectMenuItem(Direction::Right)),
        Key::Up => Reaction::Report(Event::ScrollContents(1i32)),
        Key::Down => Reaction::Report(Event::ScrollContents(-1i32)),
        Key::Mouse => Reaction::ReadMouse,
        Key::Resize => Reaction::Report(Event::Resize),
        Key::Other => Reaction::Report(Event::Other),
    }
}

/// The event that a mouse report calls for. `buttons` holds the button
/// state where one could be read; `wheel_up` and `wheel_down` are the bits
/// that stand for a turn of the wheel. A turn upward wins over one downward.
pub open spec fn spec_for_mouse(buttons: Option<u64>, wheel_up: u64, wheel_down: u64) -> Event {
    match buttons {
        Some(state) => if state & wheel_up != 0 {
            Event::ScrollContents(1i32)
        } else if state & wheel_down != 0 {
            Event::ScrollContents(-1i32)
        } else {
            Event::Other
        },
        None => Event::Other,
    }
}

impl Event {
    /// Arrow keys select a menu item or scroll by one row, a resize is
    /// passed on, and the mouse has to be read before anything is known.
    pub fn for_key(key: Key) -> (reaction: Reaction)
        ensures
            reaction == spec_for_key(key),
    {
        match key {
            Key::Left => Reaction::Report(Event::SelectMenuItem(Direction::Left)),
            Key::Right => Reaction::Report(Event::SelectMenuItem(Direction::Right)),
            Key::Up => Reaction::Report(Event::ScrollContents(1)),
            Key::Down => Reaction::Report(Event::ScrollContents(-1)),
            Key::Mouse => Reaction::ReadMouse,
            Key::Resize => Reaction::Report(Event::Resize),
            Key::Other => Reaction::Report(Event::Other),
        }
    }

    /// A turn of the wheel scrolls by one row; anything else about the
    /// mouse, and a report that could not be read, is of no interest.
    pub fn for_mouse(buttons: Option<u64>, wheel_up: u64, wheel_down: u64) -> (event: Event)
        ensures
            event == spec_for_mouse(buttons, wheel_up, wheel_down),
    {
        match buttons {
            Some(state) => {
                if state & wheel_up != 0 {
                    Event::ScrollContents(1)
                } else if state & wheel_down != 0 {
                    Event::ScrollContents(-1)
                } else {
                    Event::Other
                }
            },
            None => Event::Other,
        }
    }
}

/// The first row of the content that the screen shows: with `screen_lines`
/// rows of content and `height` rows of screen, of which the last belongs to
/// the menu, the newest row stands at the bottom of the screen, and
/// `reversed_offset` rows further back where the user has scrolled.
pub open spec fn spec_scroll_offset(screen_lines: int, height: int, reversed_offset: int) -> int {
    screen_lines - height + 1 - reversed_offset
}

/// The first row of the content that the screen shows, where that row can
/// be counted in an `i32`.
pub fn scroll_offset(screen_lines: i32, height: i32, reversed_offset: i32) -> (offset: Option<i32>)
    ensures
        offset is Some <==> i32::MIN <= spec_scroll_offset(
            screen_lines as int,
            height as int,
            reversed_offset as int,
        ) <= i32::MAX,
        offset matches Some(row) ==> row == spec_scroll_offset(
            screen_lines as int,
            height as int,
            reversed_offset as int,
        ),
{
    let wide: i64 = screen_lines as i64 - height as i64 + 1 - reversed_offset as i64;
    if wide < i32::MIN as i64 || wide > i32::MAX as i64 {
        None
    } else {
        Some(wide as i32)
    }
}

} // verus!
