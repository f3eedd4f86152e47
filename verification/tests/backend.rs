//! Frames and the window the desktop is shown in.

use wlcompositor::backend::winit::{WinitEvent, REFRESH};
use wlcompositor::command::Command;
use wlcompositor::geometry::{Point, Rect, Size};
use wlcompositor::input::InputEvent;
use wlcompositor::render::{output_elements, ClearColor, OutputElements};
use wlcompositor::space::Output;
use wlcompositor::state::{LockSurface, State};
use wlcompositor::toplevel::Window;

fn rect(x: i32, y: i32, w: i32, h: i32) -> Rect {
    Rect { loc: Point { x, y }, size: Size { w, h } }
}

fn desktop() -> State {
    let mut state = State::new();
    state.space.outputs.push(Output {
        id: 11,
        geometry: Some(rect(0, 0, 800, 600)),
        zone: rect(0, 30, 800, 570),
        layers: vec![],
    });
    for w in [1, 2] {
        state.learn_window(
            w,
            Window {
                title: "window".to_string(),
                app_id: String::new(),
                parent: None,
                geometry: rect(0, 0, 10, 10),
                max_size: Size { w: 0, h: 0 },
                initial_configure_sent: true,
                committed_maximized: true,
                alive: true,
                output: Some(11),
            },
        );
        state.space.map_element(w, Point { x: 0, y: 0 });
    }
    state
}

fn locked() -> State {
    let mut state = desktop();
    state.is_locked = true;
    state.lock_surfaces = vec![
        LockSurface { surface: 90, alive: false },
        LockSurface { surface: 91, alive: true },
    ];
    state
}

#[test]
fn a_resize_changes_the_mode_before_the_layout() {
    let mut state = desktop();
    state.winit_event(WinitEvent::Resized { size: Size { w: 1024, h: 768 } }, 1);
    assert_eq!(REFRESH, 60_000);
    assert_eq!(
        state.commands,
        vec![
            Command::SetOutputMode { size: Size { w: 1024, h: 768 }, refresh: 60_000 },
            Command::ArrangeLayers,
        ]
    );
}

#[test]
fn windows_follow_the_new_layout() {
    let mut state = desktop();
    state.space.outputs[0].zone = rect(0, 40, 1024, 728);
    assert!(state.can_reflow());
    state.winit_event(WinitEvent::Arranged { size: Size { w: 1024, h: 768 } }, 1);
    assert_eq!(state.space.elements[0].loc, Point { x: 0, y: 40 });
    assert_eq!(state.space.elements[1].loc, Point { x: 0, y: 40 });
    assert!(!state
        .commands
        .iter()
        .any(|c| matches!(c, Command::ConfigureLockSurface { .. })));
}

#[test]
fn every_lock_surface_hears_of_the_new_size() {
    let mut state = locked();
    state.winit_event(WinitEvent::Arranged { size: Size { w: 1024, h: 768 } }, 1);
    let n = state.commands.len();
    assert_eq!(
        state.commands[n - 2..].to_vec(),
        vec![
            Command::ConfigureLockSurface { surface: 90, width: 1024, height: 768 },
            Command::ConfigureLockSurface { surface: 91, width: 1024, height: 768 },
        ]
    );
}

#[test]
fn a_frame_shows_the_desktop() {
    let mut state = desktop();
    state.winit_event(WinitEvent::Redraw, 1);
    assert_eq!(
        state.commands,
        vec![
            Command::BeginFrame { clear: ClearColor::Desktop },
            Command::Draw { element: OutputElements::Space },
            Command::SubmitFrame,
            Command::SendWindowFrame { window: 1 },
            Command::SendWindowFrame { window: 2 },
            Command::SendLayerFrames,
            Command::RefreshSpace,
            Command::CleanupPopups,
            Command::FlushClients,
            Command::RequestRedraw,
        ]
    );
}

#[test]
fn a_frame_of_a_locked_session_shows_live_lock_surfaces() {
    let mut state = locked();
    state.pending_lock = true;
    state.winit_event(WinitEvent::Redraw, 1);
    assert_eq!(
        state.commands,
        vec![
            Command::BeginFrame { clear: ClearColor::Locked },
            Command::Draw { element: OutputElements::Surface { surface: 91 } },
            Command::SubmitFrame,
            Command::SendLockFrame { surface: 91 },
            Command::ConfirmLock,
            Command::RefreshSpace,
            Command::CleanupPopups,
            Command::FlushClients,
            Command::RequestRedraw,
        ]
    );
    assert!(!state.pending_lock);
    state.commands.clear();
    state.redraw();
    assert!(!state.commands.contains(&Command::ConfirmLock));
}

#[test]
fn a_lock_without_a_live_surface_is_not_confirmed() {
    let mut state = locked();
    state.lock_surfaces[1].alive = false;
    state.pending_lock = true;
    state.redraw();
    assert!(state.pending_lock);
    assert!(!state.commands.contains(&Command::ConfirmLock));
    assert_eq!(state.commands[0], Command::BeginFrame { clear: ClearColor::Locked });
    assert_eq!(state.commands[1], Command::SubmitFrame);
}

#[test]
fn the_window_can_be_closed() {
    let mut state = desktop();
    state.winit_event(WinitEvent::CloseRequested, 1);
    assert_eq!(state.commands, vec![Command::StopLoop]);
    state.commands.clear();
    state.winit_event(WinitEvent::Other, 1);
    assert!(state.commands.is_empty());
}

#[test]
fn input_is_passed_on() {
    let mut state = desktop();
    state.winit_event(
        WinitEvent::Input { event: InputEvent::Keyboard { key: 1, pressed: false, time: 2 } },
        3,
    );
    assert_eq!(
        state.commands,
        vec![Command::KeyboardInput { key: 1, pressed: false, serial: 3, time: 2 }]
    );
}

#[test]
fn what_to_draw_depends_on_the_lock() {
    let surfaces = vec![
        LockSurface { surface: 90, alive: true },
        LockSurface { surface: 91, alive: false },
        LockSurface { surface: 92, alive: true },
    ];
    assert_eq!(
        output_elements(false, &surfaces),
        (vec![OutputElements::Space], ClearColor::Desktop)
    );
    assert_eq!(
        output_elements(true, &surfaces),
        (
            vec![
                OutputElements::Surface { surface: 90 },
                OutputElements::Surface { surface: 92 },
            ],
            ClearColor::Locked,
        )
    );
    assert_eq!(output_elements(true, &vec![]), (vec![], ClearColor::Locked));
}
