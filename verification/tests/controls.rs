use snake_game::events::{respond, GameEvent, Key, Response};

#[test]
fn arrows_steer_only_in_debug() {
    assert_eq!(respond(GameEvent::KeyDown(Some(Key::Right)), true), Response { turn: Some([1, 0]), stop: false });
    assert_eq!(respond(GameEvent::KeyDown(Some(Key::Left)), true), Response { turn: Some([-1, 0]), stop: false });
    assert_eq!(respond(GameEvent::KeyDown(Some(Key::Up)), true), Response { turn: Some([0, -1]), stop: false });
    assert_eq!(respond(GameEvent::KeyDown(Some(Key::Down)), true), Response { turn: Some([0, 1]), stop: false });
    assert_eq!(respond(GameEvent::KeyDown(Some(Key::Right)), false), Response { turn: None, stop: false });
}

#[test]
fn closing_the_window_stops_but_escape_does_not() {
    assert_eq!(respond(GameEvent::Quit, false), Response { turn: None, stop: true });
    assert_eq!(respond(GameEvent::KeyDown(Some(Key::Escape)), true), Response { turn: None, stop: false });
    assert_eq!(respond(GameEvent::KeyDown(None), true), Response { turn: None, stop: false });
    assert_eq!(respond(GameEvent::Other, true), Response { turn: None, stop: false });
}
