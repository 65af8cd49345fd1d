use carrot::app_setup::{next_frame, App, AppAction, Direction, Key, KeyMessage, WindowInput};

#[test]
fn no_state_no_action() {
    let app: App<u8> = App::new();
    assert!(app.state().is_none());
    assert!(app.window_event(WindowInput::CloseRequested).is_empty());
}

#[test]
fn window_events_with_a_state() {
    let mut app: App<u8> = App::new();
    app.set_state(1);
    assert_eq!(app.window_event(WindowInput::CloseRequested), vec![AppAction::Exit]);
    assert_eq!(
        app.window_event(WindowInput::Resized { width: 640, height: 480 }),
        vec![AppAction::Resize { width: 640, height: 480 }]
    );
    assert_eq!(app.window_event(WindowInput::RedrawRequested), vec![AppAction::Render]);
    assert_eq!(
        app.window_event(WindowInput::WheelLines),
        vec![AppAction::ZoomByWheel, AppAction::ReportZoom, AppAction::Render]
    );
    assert!(app.window_event(WindowInput::Other).is_empty());
}

#[test]
fn keys_move_the_camera() {
    let mut app: App<u8> = App::new();
    app.set_state(1);
    let key = |key, pressed| WindowInput::KeyboardInput { key, pressed };
    assert_eq!(app.window_event(key(Key::Escape, false)), vec![AppAction::Exit]);
    assert!(app.window_event(key(Key::Escape, true)).is_empty());
    assert_eq!(
        app.window_event(key(Key::ArrowLeft, true)),
        vec![AppAction::Announce(KeyMessage::ArrowLeft), AppAction::MoveCamera(Direction::Left), AppAction::Render]
    );
    assert_eq!(
        app.window_event(key(Key::ArrowUp, true)),
        vec![AppAction::Announce(KeyMessage::ArrowLeft), AppAction::MoveCamera(Direction::Up), AppAction::Render]
    );
    assert_eq!(
        app.window_event(key(Key::ArrowDown, true)),
        vec![AppAction::Announce(KeyMessage::ArrowRight), AppAction::MoveCamera(Direction::Down), AppAction::Render]
    );
    assert!(app.window_event(key(Key::ArrowRight, false)).is_empty());
    assert!(app.window_event(key(Key::Other, true)).is_empty());
}

#[test]
fn state_mut_replaces_the_state() {
    let mut app: App<u8> = App::new();
    *app.state_mut() = Some(5);
    assert_eq!(app.state(), &Some(5));
}

#[test]
fn frames_count_round() {
    assert_eq!(next_frame(0, 1024, true), Some(1));
    assert_eq!(next_frame(1023, 1024, true), Some(0));
    assert_eq!(next_frame(5, 1024, false), None);
    assert_eq!(next_frame(u32::MAX, 10, true), Some(6));
}
