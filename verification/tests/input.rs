//! Keyboard and pointer input.

use wlcompositor::command::{AxisSource, AxisStep, Command, Hit};
use wlcompositor::geometry::{Point, Rect, Size, WidePoint};
use wlcompositor::input::{AxisReport, InputEvent, LayerProbe, LocalHit, Probe, WindowProbe};
use wlcompositor::space::{Interactivity, Layer, LayerKind, Output};
use wlcompositor::state::{LockSurface, State};
use wlcompositor::toplevel::Window;

fn rect(x: i32, y: i32, w: i32, h: i32) -> Rect {
    Rect { loc: Point { x, y }, size: Size { w, h } }
}

fn layer(surface: u64, kind: LayerKind, interactivity: Interactivity, x: i32, y: i32) -> Layer {
    Layer {
        surface,
        geometry: Some(rect(x, y, 800, 30)),
        kind,
        interactivity,
        initial_configure_sent: true,
    }
}

/// Two windows on an output at (100, 0), with a layer of every kind.
fn desktop() -> State {
    let mut state = State::new();
    state.space.outputs.push(Output {
        id: 11,
        geometry: Some(rect(100, 0, 800, 600)),
        zone: rect(100, 30, 800, 570),
        layers: vec![
            layer(40, LayerKind::Overlay, Interactivity::Exclusive, 0, 1),
            layer(41, LayerKind::Top, Interactivity::Never, 0, 2),
            layer(42, LayerKind::Bottom, Interactivity::OnDemand, 0, 3),
            layer(43, LayerKind::Background, Interactivity::Never, 0, 4),
        ],
    });
    for w in [1, 2] {
        state.learn_window(
            w,
            Window {
                title: "window".to_string(),
                app_id: String::new(),
                parent: None,
                geometry: rect(0, 0, 10, 10),
                max_size: Size { w: 0, h: 0 },
                initial_configure_sent: true,
                committed_maximized: true,
                alive: true,
                output: Some(11),
            },
        );
        state.space.map_element(w, Point { x: 100, y: 30 });
    }
    state
}

fn nothing() -> Probe {
    Probe {
        locks: vec![],
        overlay: None,
        top: None,
        window: None,
        bottom: None,
        background: None,
    }
}

fn hit(surface: u64, x: i32, y: i32) -> Option<LocalHit> {
    Some(LocalHit { surface, loc: Point { x, y } })
}

fn on_layer(layer: u64, hit: Option<LocalHit>) -> Option<LayerProbe> {
    Some(LayerProbe { layer, hit })
}

fn on_window(window: u64, hit: Option<LocalHit>) -> Option<WindowProbe> {
    Some(WindowProbe { window, loc: Point { x: 100, y: 30 }, hit })
}

fn press(state: &mut State, probe: Probe) -> Vec<Command> {
    state.commands.clear();
    state.process_input_event(
        InputEvent::PointerButton { probe, grabbed: false, button: 272, pressed: true, time: 5 },
        9,
    );
    std::mem::take(&mut state.commands)
}

fn button() -> Vec<Command> {
    vec![
        Command::PointerButton { button: 272, pressed: true, serial: 9, time: 5 },
        Command::PointerFrame,
    ]
}

#[test]
fn keys_go_to_the_focused_client() {
    let mut state = desktop();
    state.process_input_event(InputEvent::Keyboard { key: 30, pressed: true, time: 4 }, 8);
    assert_eq!(
        state.commands,
        vec![Command::KeyboardInput { key: 30, pressed: true, serial: 8, time: 4 }]
    );
}

#[test]
fn relative_motion_and_other_devices_are_ignored() {
    let mut state = desktop();
    state.process_input_event(InputEvent::PointerMotion, 8);
    state.process_input_event(InputEvent::Other, 8);
    assert!(state.commands.is_empty());
}

#[test]
fn upper_layers_hide_everything() {
    let state = desktop();
    let probe = Probe {
        overlay: on_layer(40, hit(400, 5, 6)),
        top: on_layer(41, hit(410, 0, 0)),
        window: on_window(2, hit(2, 0, 0)),
        bottom: on_layer(42, hit(420, 0, 0)),
        background: on_layer(43, hit(430, 0, 0)),
        ..nothing()
    };
    assert_eq!(
        state.surface_under(&probe),
        Some(Hit { surface: 400, loc: WidePoint { x: 105, y: 7 } })
    );
    let probe = Probe { overlay: None, ..probe };
    assert_eq!(
        state.surface_under(&probe),
        Some(Hit { surface: 410, loc: WidePoint { x: 100, y: 2 } })
    );
    let probe = Probe { top: None, ..probe };
    assert_eq!(
        state.surface_under(&probe),
        Some(Hit { surface: 2, loc: WidePoint { x: 100, y: 30 } })
    );
    let probe = Probe { window: None, ..probe };
    assert_eq!(
        state.surface_under(&probe),
        Some(Hit { surface: 420, loc: WidePoint { x: 100, y: 3 } })
    );
    let probe = Probe { bottom: None, ..probe };
    assert_eq!(
        state.surface_under(&probe),
        Some(Hit { surface: 430, loc: WidePoint { x: 100, y: 4 } })
    );
    assert_eq!(state.surface_under(&nothing()), None);
}

#[test]
fn what_an_overlay_does_not_take_goes_to_the_top_layer_then_to_the_windows() {
    let state = desktop();
    let probe = Probe {
        overlay: on_layer(40, None),
        top: on_layer(41, hit(410, 0, 0)),
        window: on_window(2, hit(20, 3, 4)),
        ..nothing()
    };
    assert_eq!(
        state.surface_under(&probe),
        Some(Hit { surface: 410, loc: WidePoint { x: 100, y: 2 } })
    );
    let probe = Probe {
        overlay: on_layer(40, None),
        top: on_layer(41, None),
        window: on_window(2, hit(20, 3, 4)),
        ..nothing()
    };
    assert_eq!(
        state.surface_under(&probe),
        Some(Hit { surface: 20, loc: WidePoint { x: 103, y: 34 } })
    );
}

#[test]
fn what_the_bottom_layer_does_not_take_goes_to_the_background() {
    let state = desktop();
    let probe = Probe {
        bottom: on_layer(42, None),
        background: on_layer(43, hit(430, 0, 0)),
        ..nothing()
    };
    assert_eq!(
        state.surface_under(&probe),
        Some(Hit { surface: 430, loc: WidePoint { x: 100, y: 4 } })
    );
}

#[test]
fn without_an_output_nothing_is_under_the_pointer() {
    let mut state = desktop();
    state.space.outputs[0].geometry = None;
    let probe = Probe { window: on_window(2, hit(2, 0, 0)), ..nothing() };
    assert_eq!(state.surface_under(&probe), None);
}

#[test]
fn a_locked_session_shows_the_pointer_live_lock_surfaces_only() {
    let mut state = desktop();
    state.is_locked = true;
    state.lock_surfaces = vec![
        LockSurface { surface: 90, alive: false },
        LockSurface { surface: 91, alive: true },
        LockSurface { surface: 92, alive: true },
    ];
    let probe = Probe {
        locks: vec![hit(900, 0, 0), None, hit(920, 2, 3)],
        overlay: on_layer(40, hit(400, 0, 0)),
        window: on_window(2, hit(2, 0, 0)),
        ..nothing()
    };
    assert_eq!(
        state.surface_under(&probe),
        Some(Hit { surface: 920, loc: WidePoint { x: 102, y: 3 } })
    );
    let probe = Probe { locks: vec![hit(900, 0, 0), None, None], ..probe };
    assert_eq!(state.surface_under(&probe), None);
}

#[test]
fn the_pointer_moves_over_what_is_under_it() {
    let mut state = desktop();
    let probe = Probe { window: on_window(2, hit(2, 0, 0)), ..nothing() };
    state.process_input_event(InputEvent::PointerMotionAbsolute { probe, time: 3 }, 8);
    assert_eq!(
        state.commands,
        vec![
            Command::PointerMotion {
                under: Some(Hit { surface: 2, loc: WidePoint { x: 100, y: 30 } }),
                serial: 8,
                time: 3,
            },
            Command::PointerFrame,
        ]
    );
}

#[test]
fn a_click_raises_and_focuses_a_window() {
    let mut state = desktop();
    let commands = press(&mut state, Probe { window: on_window(1, hit(1, 0, 0)), ..nothing() });
    let mut expected = vec![
        Command::RaiseWindow { window: 1, activate: true },
        Command::SetKeyboardFocus { focus: Some(1), serial: 9 },
        Command::SendPendingConfigure { window: 2 },
        Command::SendPendingConfigure { window: 1 },
    ];
    expected.extend(button());
    assert_eq!(commands, expected);
    assert_eq!(state.space.elements[1].window, 1);
}

#[test]
fn a_click_on_a_layer_that_wants_the_keyboard_deactivates_the_windows() {
    let mut state = desktop();
    let commands = press(&mut state, Probe { overlay: on_layer(40, None), ..nothing() });
    let mut expected = vec![
        Command::SetActivated { window: 1, active: false },
        Command::SendPendingConfigure { window: 1 },
        Command::SetActivated { window: 2, active: false },
        Command::SendPendingConfigure { window: 2 },
        Command::SetKeyboardFocus { focus: Some(40), serial: 9 },
    ];
    expected.extend(button());
    assert_eq!(commands, expected);
}

#[test]
fn a_click_on_a_bare_panel_changes_no_focus() {
    let mut state = desktop();
    let probe = Probe {
        top: on_layer(41, hit(410, 0, 0)),
        window: on_window(1, hit(1, 0, 0)),
        ..nothing()
    };
    assert_eq!(press(&mut state, probe), button());
    assert_eq!(state.space.elements[1].window, 2);
}

#[test]
fn a_click_beside_everything_clears_the_focus() {
    let mut state = desktop();
    let commands = press(&mut state, nothing());
    assert!(commands.contains(&Command::SetActivated { window: 1, active: false }));
    assert!(commands.contains(&Command::SetActivated { window: 2, active: false }));
    assert!(commands.contains(&Command::SetKeyboardFocus { focus: None, serial: 9 }));
}

#[test]
fn a_release_and_a_grabbed_pointer_change_no_focus() {
    let mut state = desktop();
    for (grabbed, pressed) in [(true, true), (false, false)] {
        state.commands.clear();
        let probe = Probe { window: on_window(1, hit(1, 0, 0)), ..nothing() };
        state.process_input_event(
            InputEvent::PointerButton { probe, grabbed, button: 272, pressed, time: 5 },
            9,
        );
        assert_eq!(
            state.commands,
            vec![
                Command::PointerButton { button: 272, pressed, serial: 9, time: 5 },
                Command::PointerFrame,
            ]
        );
    }
}

#[test]
fn a_click_on_a_lock_surface_focuses_it() {
    let mut state = desktop();
    state.is_locked = true;
    state.lock_surfaces = vec![LockSurface { surface: 90, alive: true }];
    let probe = Probe {
        locks: vec![hit(900, 0, 0)],
        window: on_window(1, hit(1, 0, 0)),
        ..nothing()
    };
    let commands = press(&mut state, probe);
    assert_eq!(commands[0], Command::SetKeyboardFocus { focus: Some(900), serial: 9 });
    assert_eq!(commands.len(), 3);
    let probe = Probe { locks: vec![None], window: on_window(1, hit(1, 0, 0)), ..nothing() };
    assert_eq!(press(&mut state, probe), button());
    assert_eq!(state.space.elements[1].window, 2);
}

#[test]
fn scrolling_carries_what_the_event_carries() {
    let mut state = desktop();
    let wheel = AxisReport { scrolled: true, v120: true, zero: false };
    let still = AxisReport { scrolled: false, v120: true, zero: true };
    state.process_input_event(
        InputEvent::PointerAxis {
            horizontal: still,
            vertical: wheel,
            source: AxisSource::Wheel,
            time: 6,
        },
        9,
    );
    assert_eq!(
        state.commands,
        vec![
            Command::PointerAxis {
                source: AxisSource::Wheel,
                horizontal: AxisStep { value: false, v120: false, stop: false },
                vertical: AxisStep { value: true, v120: true, stop: false },
                time: 6,
            },
            Command::PointerFrame,
        ]
    );
}

#[test]
fn fingers_stop_scrolling() {
    let still = AxisReport { scrolled: false, v120: false, zero: true };
    let moving = AxisReport { scrolled: true, v120: false, zero: false };
    let finger = AxisSource::Finger;
    assert_eq!(still.step(finger), AxisStep { value: false, v120: false, stop: true });
    assert_eq!(moving.step(finger), AxisStep { value: true, v120: false, stop: false });
    for source in [AxisSource::Continuous, AxisSource::Wheel, AxisSource::WheelTilt] {
        assert_eq!(still.step(source), AxisStep { value: false, v120: false, stop: false });
    }
}

#[test]
fn events_about_nothing_there_are_told_apart() {
    let mut state = desktop();
    let moved = |probe: Probe| InputEvent::PointerMotionAbsolute { probe, time: 1 };
    let about = |layer: u64| Probe { top: on_layer(layer, None), ..nothing() };
    assert!(state.can_happen(&moved(nothing())));
    assert!(state.can_happen(&moved(about(41))));
    assert!(!state.can_happen(&moved(about(77))));
    let window = |w: u64| Probe { window: on_window(w, None), ..nothing() };
    assert!(state.can_happen(&moved(window(2))));
    assert!(!state.can_happen(&moved(window(77))));
    let locks = Probe { locks: vec![None], ..nothing() };
    assert!(!state.can_happen(&moved(locks)));
    assert!(state.can_happen(&InputEvent::PointerMotion));
    state.space.outputs[0].layers[1].geometry = None;
    assert!(!state.can_happen(&moved(about(41))));
    state.space.outputs[0].geometry = None;
    assert!(!state.can_happen(&moved(nothing())));
    state.space.outputs.clear();
    assert!(!state.can_happen(&moved(about(40))));
}
