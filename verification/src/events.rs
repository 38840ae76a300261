//! How the game answers the window's events.

use vstd::prelude::*;

verus! {

/// The keys that the game tells apart.
#[derive(Clone, Copy, Debug, PartialEq, Eq, Structural)]
pub enum Key {
    Right,
    Left,
    Up,
    Down,
    Escape,
    Other,
}

/// The events that the game tells apart.
#[derive(Clone, Copy, Debug, PartialEq, Eq, Structural)]
pub enum GameEvent {
    /// A key went down; `None` when the window could not name it.
    KeyDown(Option<Key>),
    /// The window was closed.
    Quit,
    Other,
}

/// What the game does about an event: maybe turn the head, maybe stop.
#[derive(Clone, Copy, Debug, PartialEq, Eq)]
pub struct Response {
    pub turn: Option<[i32; 2]>,
    pub stop: bool,
}

/// The direction a key steers the head in, in debug mode.
pub open spec fn key_turn(key: Key) -> Option<[i32; 2]> {
    match key {
        Key::Right => Some([1i32, 0i32]),
        Key::Left => Some([-1i32, 0i32]),
        Key::Up => Some([0i32, -1i32]),
        Key::Down => Some([0i32, 1i32]),
        _ => None,
    }
}

/// The answer to `event`. A named key steers the head with the arrow keys
/// in debug mode and does nothing else: Escape, being a named key, does not
/// stop the game. Closing the window does.
pub open spec fn spec_response(event: GameEvent, debug: bool) -> Response {
    match event {
        GameEvent::KeyDown(Some(key)) => Response { turn: if debug { key_turn(key) } else { None }, stop: false },
        GameEvent::Quit => Response { turn: None, stop: true },
        _ => Response { turn: None, stop: false },
    }
}

/// Answers one event of the window.
pub fn respond(event: GameEvent, debug: bool) -> (r: Response)
    ensures
        r == spec_response(event, debug),
{
    match event {
        GameEvent::KeyDown(Some(keycode)) => {
            let mut turn = None;
            if debug {
                turn = match keycode {
                    Key::Right => Some(crate::geometry::SNAKE_DIR_RIGHT),
                    Key::Left => Some(crate::geometry::SNAKE_DIR_LEFT),
                    Key::Up => Some(crate::geometry::SNAKE_DIR_UP),
                    Key::Down => Some(crate::geometry::SNAKE_DIR_DOWN),
                    _ => None,
                };
            }
            Response { turn, stop: false }
        },
        GameEvent::Quit => Response { turn: None, stop: true },
        _ => Response { turn: None, stop: false },
    }
}

/// Outside debug mode no key turns the head or stops the game; in debug
/// mode the four arrow keys turn it one cell right, left, up and down, and
/// no other key turns it or stops the game. Closing the window stops the
/// game without turning the head.
pub proof fn law_keys_steer_only_in_debug(k: Key)
    ensures
        spec_response(GameEvent::KeyDown(Some(k)), false) == (Response { turn: None, stop: false }),
        !spec_response(GameEvent::KeyDown(Some(k)), true).stop,
        k == Key::Right ==> spec_response(GameEvent::KeyDown(Some(k)), true).turn == Some([1i32, 0i32]),
        k == Key::Left ==> spec_response(GameEvent::KeyDown(Some(k)), true).turn == Some([-1i32, 0i32]),
        k == Key::Up ==> spec_response(GameEvent::KeyDown(Some(k)), true).turn == Some([0i32, -1i32]),
        k == Key::Down ==> spec_response(GameEvent::KeyDown(Some(k)), true).turn == Some([0i32, 1i32]),
        k == Key::Escape || k == Key::Other ==> spec_response(GameEvent::KeyDown(Some(k)), true).turn is None,
        spec_response(GameEvent::Quit, false) == (Response { turn: None, stop: true }),
        spec_response(GameEvent::Quit, true) == (Response { turn: None, stop: true }),
{
}

} // verus!
