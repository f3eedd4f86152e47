//! The shell that knows toplevels only.

use wlcompositor::command::Command;
use wlcompositor::geometry::{Point, Rect, Size};
use wlcompositor::handlers::toplevel_shell::{handle_commit, ToplevelShell};
use wlcompositor::space::Output;
use wlcompositor::state::{LockSurface, State};
use wlcompositor::toplevel::{PendingChange, Window};

fn rect(x: i32, y: i32, w: i32, h: i32) -> Rect {
    Rect { loc: Point { x, y }, size: Size { w, h } }
}

fn window() -> Window {
    Window {
        title: String::new(),
        app_id: String::new(),
        parent: None,
        geometry: rect(0, 0, 10, 10),
        max_size: Size { w: 0, h: 0 },
        initial_configure_sent: false,
        committed_maximized: false,
        alive: true,
        output: None,
    }
}

fn shell() -> ToplevelShell {
    let mut state = State::new();
    state.space.outputs.push(Output {
        id: 11,
        geometry: Some(rect(0, 0, 800, 600)),
        zone: rect(0, 30, 800, 570),
        layers: vec![],
    });
    ToplevelShell { state }
}

fn open(shell: &mut ToplevelShell, w: u64) {
    shell.state.learn_window(w, window());
    shell.new_toplevel(w, 1);
    handle_commit(shell, w);
}

fn order(shell: &ToplevelShell) -> Vec<u64> {
    shell.state.space.elements.iter().map(|e| e.window).collect()
}

fn taken(shell: &mut ToplevelShell) -> Vec<Command> {
    std::mem::take(&mut shell.state.commands)
}

#[test]
fn a_toplevel_fills_the_zone_and_gets_the_focus() {
    let mut shell = shell();
    shell.state.learn_window(1, window());
    shell.new_toplevel(1, 4);
    assert_eq!(
        taken(&mut shell),
        vec![
            Command::SetPending { window: 1, change: PendingChange::sized(Size { w: 800, h: 570 }) },
            Command::MapWindow { window: 1, loc: Point { x: 0, y: 30 }, activate: true },
            Command::RaiseWindow { window: 1, activate: true },
            Command::SetPending { window: 1, change: PendingChange::activation(true) },
            Command::SetKeyboardFocus { focus: Some(1), serial: 4 },
        ]
    );
    handle_commit(&mut shell, 1);
    assert_eq!(taken(&mut shell), vec![Command::SendConfigure { window: 1 }]);
    handle_commit(&mut shell, 1);
    handle_commit(&mut shell, 77);
    assert!(shell.state.commands.is_empty());
}

#[test]
fn without_an_output_a_toplevel_is_at_the_origin() {
    let mut shell = ToplevelShell { state: State::new() };
    open(&mut shell, 1);
    assert_eq!(shell.state.space.elements[0].loc, Point { x: 0, y: 0 });
}

#[test]
fn only_the_focused_toplevel_is_activated() {
    let mut shell = shell();
    open(&mut shell, 1);
    open(&mut shell, 2);
    taken(&mut shell);
    shell.focus_window(1, 5);
    assert_eq!(order(&shell), vec![2, 1]);
    assert_eq!(
        taken(&mut shell),
        vec![
            Command::RaiseWindow { window: 1, activate: true },
            Command::SetPending { window: 2, change: PendingChange::activation(false) },
            Command::SendPendingConfigure { window: 2 },
            Command::SetPending { window: 1, change: PendingChange::activation(true) },
            Command::SendPendingConfigure { window: 1 },
            Command::SetKeyboardFocus { focus: Some(1), serial: 5 },
        ]
    );
}

#[test]
fn the_topmost_toplevel_left_gets_the_focus() {
    let mut shell = shell();
    open(&mut shell, 1);
    open(&mut shell, 2);
    taken(&mut shell);
    shell.toplevel_destroyed(2, 6);
    assert_eq!(order(&shell), vec![1]);
    assert_eq!(
        taken(&mut shell).last(),
        Some(&Command::SetKeyboardFocus { focus: Some(1), serial: 6 })
    );
    shell.toplevel_destroyed(1, 7);
    assert_eq!(
        taken(&mut shell),
        vec![
            Command::UnmapWindow { window: 1 },
            Command::SetKeyboardFocus { focus: None, serial: 7 },
        ]
    );
    shell.toplevel_destroyed(1, 8);
    assert_eq!(taken(&mut shell), vec![Command::SetKeyboardFocus { focus: None, serial: 8 }]);
}

#[test]
fn filling_a_new_zone_keeps_the_order() {
    let mut shell = shell();
    open(&mut shell, 1);
    open(&mut shell, 2);
    open(&mut shell, 3);
    shell.state.space.outputs[0].zone = rect(10, 20, 700, 500);
    taken(&mut shell);
    shell.reflow_toplevels();
    assert_eq!(order(&shell), vec![1, 2, 3]);
    for e in &shell.state.space.elements {
        assert_eq!(e.loc, Point { x: 10, y: 20 });
    }
    assert_eq!(
        taken(&mut shell)[..3].to_vec(),
        vec![
            Command::SetPending { window: 1, change: PendingChange::sized(Size { w: 700, h: 500 }) },
            Command::SendPendingConfigure { window: 1 },
            Command::MapWindow { window: 1, loc: Point { x: 10, y: 20 }, activate: false },
        ]
    );
}

#[test]
fn a_resize_also_reaches_lock_surfaces() {
    let mut shell = shell();
    open(&mut shell, 1);
    shell.state.is_locked = true;
    shell.state.lock_surfaces = vec![LockSurface { surface: 90, alive: true }];
    taken(&mut shell);
    shell.arranged(Size { w: 640, h: 480 });
    assert_eq!(
        taken(&mut shell).last(),
        Some(&Command::ConfigureLockSurface { surface: 90, width: 640, height: 480 })
    );
}

#[test]
fn a_fresh_token_focuses_a_stacked_toplevel() {
    let mut shell = shell();
    open(&mut shell, 1);
    open(&mut shell, 2);
    taken(&mut shell);
    shell.request_activation(10, 1, 5);
    shell.request_activation(0, 9, 5);
    assert!(shell.state.commands.is_empty());
    shell.request_activation(9, 1, 5);
    assert_eq!(order(&shell), vec![2, 1]);
}
