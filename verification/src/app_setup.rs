use vstd::prelude::*;

verus! {

/// A message from the animation task to the application.
pub struct StateUpdate {}

/// Keys the application reacts to.
#[derive(Debug, Clone, Copy, PartialEq, Eq, Structural)]
pub enum Key {
    Escape,
    ArrowLeft,
    ArrowRight,
    ArrowUp,
    ArrowDown,
    Other,
}

/// A window event, as far as the application looks at it.
#[derive(Debug, Clone, Copy, PartialEq, Eq, Structural)]
pub enum WindowInput {
    CloseRequested,
    Resized { width: u32, height: u32 },
    RedrawRequested,
    /// The mouse wheel turned by lines (the amount stays with the caller).
    WheelLines,
    KeyboardInput { key: Key, pressed: bool },
    Other,
}

/// Where the camera moves.
#[derive(Debug, Clone, Copy, PartialEq, Eq, Structural)]
pub enum Direction {
    Left,
    Right,
    Up,
    Down,
}

/// A line the application prints when a key moves the camera.
#[derive(Debug, Clone, Copy, PartialEq, Eq, Structural)]
pub enum KeyMessage {
    ArrowLeft,
    ArrowRight,
}

/// What the application does, in order, in answer to an event.
#[derive(Debug, Clone, Copy, PartialEq, Eq, Structural)]
pub enum AppAction {
    Exit,
    Resize { width: u32, height: u32 },
    Render,
    /// Zoom by the wheel amount of the event.
    ZoomByWheel,
    /// Print the wheel amount and the zoom.
    ReportZoom,
    Announce(KeyMessage),
    MoveCamera(Direction),
}

/// The answer to a window event: nothing before the render state exists;
/// then closing exits, a resize resizes, a redraw renders, the wheel zooms,
/// reports and renders, a released Escape exits, and a pressed arrow key
/// prints its line, moves the camera and renders.
pub open spec fn event_actions(has_state: bool, event: WindowInput) -> Seq<AppAction> {
    if !has_state {
        Seq::empty()
    } else {
        match event {
            WindowInput::CloseRequested => seq![AppAction::Exit],
            WindowInput::Resized { width, height } => seq![AppAction::Resize { width, height }],
            WindowInput::RedrawRequested => seq![AppAction::Render],
            WindowInput::WheelLines => seq![AppAction::ZoomByWheel, AppAction::ReportZoom, AppAction::Render],
            WindowInput::KeyboardInput { key, pressed } => match (key, pressed) {
                (Key::Escape, false) => seq![AppAction::Exit],
                (Key::ArrowLeft, true) => seq![
                    AppAction::Announce(KeyMessage::ArrowLeft),
                    AppAction::MoveCamera(Direction::Left),
                    AppAction::Render,
                ],
                (Key::ArrowRight, true) => seq![
                    AppAction::Announce(KeyMessage::ArrowRight),
                    AppAction::MoveCamera(Direction::Right),
                    AppAction::Render,
                ],
                (Key::ArrowUp, true) => seq![
                    AppAction::Announce(KeyMessage::ArrowLeft),
                    AppAction::MoveCamera(Direction::Up),
                    AppAction::Render,
                ],
                (Key::ArrowDown, true) => seq![
                    AppAction::Announce(KeyMessage::ArrowRight),
                    AppAction::MoveCamera(Direction::Down),
                    AppAction::Render,
                ],
                _ => Seq::empty(),
            },
            WindowInput::Other => Seq::empty(),
        }
    }
}

/// The arrow key that points in direction `d`.
pub open spec fn arrow_key(d: Direction) -> Key {
    match d {
        Direction::Left => Key::ArrowLeft,
        Direction::Right => Key::ArrowRight,
        Direction::Up => Key::ArrowUp,
        Direction::Down => Key::ArrowDown,
    }
}

/// Once the render state exists, the camera moves in direction `d` exactly
/// when the arrow key pointing that way is pressed, and the answer ends by
/// moving it and then rendering; nothing happens before the render state
/// exists.
pub proof fn lemma_arrow_moves_camera_its_way(event: WindowInput, d: Direction)
    ensures
        event_actions(true, event).contains(AppAction::MoveCamera(d))
            <==> event == (WindowInput::KeyboardInput { key: arrow_key(d), pressed: true }),
        event_actions(true, WindowInput::KeyboardInput { key: arrow_key(d), pressed: true }).len() >= 2,
        event_actions(true, WindowInput::KeyboardInput { key: arrow_key(d), pressed: true }).last()
            == AppAction::Render,
        event_actions(true, WindowInput::KeyboardInput { key: arrow_key(d), pressed: true })[
            event_actions(true, WindowInput::KeyboardInput { key: arrow_key(d), pressed: true }).len() - 2]
            == AppAction::MoveCamera(d),
        !event_actions(false, event).contains(AppAction::MoveCamera(d)),
{
    let a = event_actions(true, event);
    if a.contains(AppAction::MoveCamera(d)) {
        let k = choose|k: int| 0 <= k < a.len() && a[k] == AppAction::MoveCamera(d);
        assert(a[k] == AppAction::MoveCamera(d));
    }
    let pressed = event_actions(true, WindowInput::KeyboardInput { key: arrow_key(d), pressed: true });
    assert(pressed[1] == AppAction::MoveCamera(d));
    let e = event_actions(false, event);
    assert(e.len() == 0);
}

/// Once the render state exists, the application exits exactly on a close
/// request or a released Escape, resizes exactly on a resize and to its
/// size, zooms exactly on the wheel (zooming, reporting, then rendering),
/// and renders exactly on a redraw request, the wheel or a pressed arrow
/// key.
pub proof fn lemma_event_answers(event: WindowInput, width: u32, height: u32)
    ensures
        event_actions(true, event).contains(AppAction::Exit)
            <==> (event == WindowInput::CloseRequested
                || event == (WindowInput::KeyboardInput { key: Key::Escape, pressed: false })),
        event_actions(true, event).contains(AppAction::Resize { width, height })
            <==> event == (WindowInput::Resized { width, height }),
        event_actions(true, event).contains(AppAction::ZoomByWheel) <==> event == WindowInput::WheelLines,
        event_actions(true, WindowInput::WheelLines)[0] == AppAction::ZoomByWheel,
        event_actions(true, WindowInput::WheelLines)[1] == AppAction::ReportZoom,
        event_actions(true, WindowInput::WheelLines).last() == AppAction::Render,
        event_actions(true, event).contains(AppAction::Render)
            <==> (event == WindowInput::RedrawRequested || event == WindowInput::WheelLines
                || exists|d: Direction| event == (WindowInput::KeyboardInput { key: #[trigger] arrow_key(d), pressed: true })),
{
    let a = event_actions(true, event);
    assert forall|x: AppAction| #[trigger] a.contains(x) implies exists|k: int| 0 <= k < a.len() && a[k] == x by {}
    match event {
        WindowInput::CloseRequested => { assert(a[0] == AppAction::Exit); },
        WindowInput::Resized { width: w, height: h } => { assert(a[0] == AppAction::Resize { width: w, height: h }); },
        WindowInput::RedrawRequested => { assert(a[0] == AppAction::Render); },
        WindowInput::WheelLines => {
            assert(a[0] == AppAction::ZoomByWheel);
            assert(a[2] == AppAction::Render);
        },
        WindowInput::KeyboardInput { key, pressed } => {
            if key == Key::Escape && !pressed {
                assert(a[0] == AppAction::Exit);
            }
            if pressed && key != Key::Escape && key != Key::Other {
                assert(a[2] == AppAction::Render);
                let d = match key {
                    Key::ArrowLeft => Direction::Left,
                    Key::ArrowRight => Direction::Right,
                    Key::ArrowUp => Direction::Up,
                    _ => Direction::Down,
                };
                assert(event == (WindowInput::KeyboardInput { key: arrow_key(d), pressed: true }));
            }
            if a.contains(AppAction::Render) {
                let k = choose|k: int| 0 <= k < a.len() && a[k] == AppAction::Render;
                assert(a[k] == AppAction::Render);
            }
        },
        WindowInput::Other => {},
    }
}

/// The next frame of the animation loop, counted modulo `frames`, after the
/// frame `frame` was handed to the application; `None`, ending the loop,
/// when it could not be delivered.
pub fn next_frame(frame: u32, frames: u32, delivered: bool) -> (res: Option<u32>)
    requires
        frames > 0,
    ensures
        res == (if delivered { Some(((frame + 1) % (frames as int)) as u32) } else { None::<u32> }),
{
    if !delivered {
        return None;
    }
    let next = ((frame as u64) + 1) % (frames as u64);
    Some(next as u32)
}

/// The application: the render state, once the window exists.
pub struct App<S> {
    state: Option<S>,
}

impl<S> App<S> {
    pub closed spec fn state_spec(&self) -> Option<S> {
        self.state
    }

    pub fn new() -> (res: App<S>)
        ensures
            res.state_spec() is None,
    {
        App { state: None }
    }

    pub fn state(&self) -> (res: &Option<S>)
        ensures
            *res == self.state_spec(),
    {
        &self.state
    }

    pub fn state_mut(&mut self) -> (res: &mut Option<S>)
        ensures
            *res == old(self).state_spec(),
            final(self).state_spec() == *final(res),
    {
        &mut self.state
    }

    pub fn set_state(&mut self, state: S)
        ensures
            final(self).state_spec() == Some(state),
    {
        self.state = Some(state);
    }

    /// What to do, in order, in answer to `event` (see [`event_actions`]).
    pub fn window_event(&self, event: WindowInput) -> (res: Vec<AppAction>)
        ensures
            res@ == event_actions(self.state_spec() is Some, event),
            forall|d: Direction| #[trigger] res@.contains(AppAction::MoveCamera(d))
                <==> self.state_spec() is Some
                && event == (WindowInput::KeyboardInput { key: arrow_key(d), pressed: true }),
    {
        proof {
            assert forall|d: Direction| #[trigger] event_actions(self.state_spec() is Some, event).contains(AppAction::MoveCamera(d))
                <==> self.state_spec() is Some
                && event == (WindowInput::KeyboardInput { key: arrow_key(d), pressed: true }) by {
                lemma_arrow_moves_camera_its_way(event, d);
            }
        }
        if self.state.is_none() {
            return Vec::new();
        }
        let res = match event {
            WindowInput::CloseRequested => vec![AppAction::Exit],
            WindowInput::Resized { width, height } => vec![AppAction::Resize { width, height }],
            WindowInput::RedrawRequested => vec![AppAction::Render],
            WindowInput::WheelLines => vec![AppAction::ZoomByWheel, AppAction::ReportZoom, AppAction::Render],
            WindowInput::KeyboardInput { key, pressed } => match (key, pressed) {
                (Key::Escape, false) => vec![AppAction::Exit],
                (Key::ArrowLeft, true) => vec![
                    AppAction::Announce(KeyMessage::ArrowLeft),
                    AppAction::MoveCamera(Direction::Left),
                    AppAction::Render,
                ],
                (Key::ArrowRight, true) => vec![
                    AppAction::Announce(KeyMessage::ArrowRight),
                    AppAction::MoveCamera(Direction::Right),
                    AppAction::Render,
                ],
                (Key::ArrowUp, true) => vec![
                    AppAction::Announce(KeyMessage::ArrowLeft),
                    AppAction::MoveCamera(Direction::Up),
                    AppAction::Render,
                ],
                (Key::ArrowDown, true) => vec![
                    AppAction::Announce(KeyMessage::ArrowRight),
                    AppAction::MoveCamera(Direction::Down),
                    AppAction::Render,
                ],
                _ => Vec::new(),
            },
            WindowInput::Other => Vec::new(),
        };
        assert(res@ =~= event_actions(true, event));
        res
    }
}

} // verus!
