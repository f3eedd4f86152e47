//! Toplevel windows: focus, layout, first commits and modes.

use wlcompositor::command::Command;
use wlcompositor::geometry::{Point, Rect, Size};
use wlcompositor::handlers::xdg_shell::lifecycle::handle_commit;
use wlcompositor::space::{Element, Output};
use wlcompositor::state::{LockSurface, State};
use wlcompositor::toplevel::{
    PendingChange, SizeChange, ToplevelState, Window, WindowKind, WindowMode, WindowState,
};

fn rect(x: i32, y: i32, w: i32, h: i32) -> Rect {
    Rect { loc: Point { x, y }, size: Size { w, h } }
}

fn window(title: &str, parent: Option<u64>, w: i32, h: i32) -> Window {
    Window {
        title: title.to_string(),
        app_id: String::new(),
        parent,
        geometry: rect(0, 0, w, h),
        max_size: Size { w: 0, h: 0 },
        initial_configure_sent: false,
        committed_maximized: false,
        alive: true,
        output: None,
    }
}

/// An output of 800x600 with a panel of 30 on top.
fn desktop() -> State {
    let mut state = State::new();
    state.space.outputs.push(Output {
        id: 1,
        geometry: Some(rect(0, 0, 800, 600)),
        zone: rect(0, 30, 800, 570),
        layers: vec![],
    });
    state
}

fn open(state: &mut State, w: u64, win: Window) {
    state.learn_window(w, win);
    state.new_toplevel(w);
    let pointer = Some(Point { x: 100, y: 100 });
    assert!(state.can_commit(w, None, None, false, pointer, 1));
    handle_commit(state, w, pointer, 1);
}

fn order(state: &State) -> Vec<u64> {
    state.space.elements.iter().map(|e| e.window).collect()
}

fn loc(state: &State, w: u64) -> Point {
    state.space.elements.iter().find(|e| e.window == w).unwrap().loc
}

fn mode(state: &State, w: u64) -> WindowMode {
    state.toplevels.get(&w).unwrap().mode
}

fn taken(state: &mut State) -> Vec<Command> {
    std::mem::take(&mut state.commands)
}

fn focuses(commands: &[Command]) -> Vec<Option<u64>> {
    commands
        .iter()
        .filter_map(|c| match c {
            Command::SetKeyboardFocus { focus, .. } => Some(*focus),
            _ => None,
        })
        .collect()
}

#[test]
fn a_new_desktop_is_empty() {
    let state = State::new();
    assert!(state.space.elements.is_empty());
    assert!(state.commands.is_empty());
    assert!(!state.is_locked);
    assert_eq!(state.active_window, None);
    assert_eq!(state.zone(), None);
    assert_eq!(state.output_geometry(), None);
}

#[test]
fn a_new_toplevel_is_bounded_by_the_zone() {
    let mut state = desktop();
    state.learn_window(7, window("editor", None, 300, 200));
    state.new_toplevel(7);
    assert_eq!(
        taken(&mut state),
        vec![Command::SetPending {
            window: 7,
            change: PendingChange {
                size: SizeChange::Keep,
                bounds: Some(Size { w: 800, h: 570 }),
                maximized: None,
                fullscreen: None,
                activated: None,
            },
        }]
    );
    assert_eq!(
        *state.toplevels.get(&7).unwrap(),
        WindowState {
            kind: WindowKind::Normal,
            mode: WindowMode::Floating,
            mapped: false,
            modal: false,
        }
    );
}

#[test]
fn the_first_commit_maximizes_a_window_that_can_fill_the_zone() {
    let mut state = desktop();
    state.learn_window(7, window("editor", None, 300, 200));
    state.new_toplevel(7);
    taken(&mut state);
    assert!(handle_commit(&mut state, 7, None, 5));
    assert_eq!(mode(&state, 7), WindowMode::Maximized);
    assert!(state.toplevels.get(&7).unwrap().mapped);
    assert_eq!(state.space.elements, vec![Element { window: 7, loc: Point { x: 0, y: 30 } }]);
    assert_eq!(state.active_window, Some(7));
    let commands = taken(&mut state);
    assert_eq!(
        commands[..5].to_vec(),
        vec![
            Command::SetPending {
                window: 7,
                change: PendingChange::maximize(Size { w: 800, h: 570 }),
            },
            Command::MapWindow { window: 7, loc: Point { x: 0, y: 30 }, activate: true },
            Command::RaiseWindow { window: 7, activate: true },
            Command::SetKeyboardFocus { focus: Some(7), serial: 5 },
            Command::SendConfigure { window: 7 },
        ]
    );
}

#[test]
fn a_fixed_size_window_is_centered() {
    let mut state = desktop();
    let mut win = window("dialog box", None, 200, 100);
    win.max_size = Size { w: 200, h: 100 };
    open(&mut state, 3, win);
    assert_eq!(mode(&state, 3), WindowMode::Floating);
    assert_eq!(loc(&state, 3), Point { x: 300, y: 265 });
}

#[test]
fn without_an_output_a_window_is_maximized_at_the_origin() {
    let mut state = State::new();
    open(&mut state, 3, window("editor", None, 200, 100));
    assert_eq!(mode(&state, 3), WindowMode::Maximized);
    assert_eq!(loc(&state, 3), Point { x: 0, y: 0 });
}

#[test]
fn a_dialog_goes_over_the_middle_of_its_parent() {
    let mut state = desktop();
    open(&mut state, 1, window("editor", None, 800, 570));
    open(&mut state, 2, window("save as", Some(1), 300, 170));
    assert_eq!(state.toplevels.get(&2).unwrap().kind, WindowKind::Dialog);
    assert_eq!(mode(&state, 2), WindowMode::Floating);
    assert_eq!(loc(&state, 2), Point { x: 250, y: 230 });
    assert_eq!(order(&state), vec![1, 2]);
}

#[test]
fn centering_a_dialog_puts_it_above_its_parent_and_is_idempotent() {
    let mut state = desktop();
    open(&mut state, 1, window("editor", None, 800, 570));
    open(&mut state, 2, window("save as", Some(1), 300, 170));
    state.focus_window(1, 9);
    assert_eq!(order(&state), vec![2, 1]);
    state.center_child_toplevel(2);
    assert_eq!(order(&state), vec![1, 2]);
    let before = state.space.elements.clone();
    state.center_child_toplevel(2);
    assert_eq!(state.space.elements, before);
}

#[test]
fn centering_needs_a_stacked_parent() {
    let mut state = desktop();
    open(&mut state, 2, window("orphan", Some(1), 300, 170));
    assert_eq!(loc(&state, 2), Point { x: 0, y: 0 });
    taken(&mut state);
    state.center_child_toplevel(2);
    assert!(state.commands.is_empty());
}

#[test]
fn a_tooltip_floats_beside_the_pointer() {
    let mut state = desktop();
    open(&mut state, 1, window("editor", None, 800, 570));
    taken(&mut state);
    state.learn_window(2, window("", None, 0, 0));
    state.new_toplevel(2);
    assert!(handle_commit(&mut state, 2, Some(Point { x: 100, y: 100 }), 9));
    assert_eq!(
        state.toplevels.get(&2).unwrap().kind,
        WindowKind::Transient(Point { x: 112, y: 124 })
    );
    assert_eq!(order(&state), vec![1]);
    assert_eq!(state.active_window, Some(1));
    let commands = taken(&mut state);
    assert!(focuses(&commands).is_empty());
    assert_eq!(commands[2], Command::SendConfigure { window: 2 });
}

#[test]
fn a_tooltip_without_a_pointer_is_at_the_origin() {
    let mut state = desktop();
    state.learn_window(2, window("", None, 0, 0));
    state.new_toplevel(2);
    handle_commit(&mut state, 2, None, 9);
    assert_eq!(
        state.toplevels.get(&2).unwrap().kind,
        WindowKind::Transient(Point { x: 0, y: 0 })
    );
}

#[test]
fn a_tooltip_floats_whatever_it_asked_for() {
    let mut state = desktop();
    state.learn_window(2, window("", None, 0, 0));
    state.new_toplevel(2);
    state.maximize_request(2);
    assert_eq!(mode(&state, 2), WindowMode::Maximized);
    taken(&mut state);
    handle_commit(&mut state, 2, None, 9);
    assert_eq!(mode(&state, 2), WindowMode::Floating);
    assert_eq!(
        taken(&mut state)[0],
        Command::SetPending {
            window: 2,
            change: PendingChange {
                size: SizeChange::Clear,
                bounds: None,
                maximized: Some(false),
                fullscreen: Some(false),
                activated: None,
            },
        }
    );
}

#[test]
fn a_tooltip_is_kept_on_the_output() {
    let mut state = desktop();
    state.learn_window(2, window("", None, 0, 0));
    state.new_toplevel(2);
    handle_commit(&mut state, 2, Some(Point { x: 780, y: 590 }), 9);
    let mut win = window("", None, 60, 20);
    win.initial_configure_sent = true;
    win.committed_maximized = true;
    state.learn_window(2, win);
    handle_commit(&mut state, 2, None, 9);
    assert_eq!(
        state.toplevels.get(&2).unwrap().kind,
        WindowKind::Transient(Point { x: 740, y: 580 })
    );
}

#[test]
fn a_tooltip_that_gets_a_title_becomes_a_window() {
    let mut state = desktop();
    state.learn_window(2, window("", None, 0, 0));
    state.new_toplevel(2);
    handle_commit(&mut state, 2, None, 9);
    state.learn_window(2, window("settings", None, 0, 0));
    state.promote_transient(2, None, 9);
    assert_eq!(state.toplevels.get(&2).unwrap().kind, WindowKind::Normal);
    assert_eq!(order(&state), vec![2]);
    taken(&mut state);
    state.promote_transient(2, None, 9);
    assert!(state.commands.is_empty());
}

#[test]
fn the_end_of_a_tooltip_moves_no_focus() {
    let mut state = desktop();
    open(&mut state, 1, window("editor", None, 800, 570));
    open(&mut state, 2, window("", None, 0, 0));
    taken(&mut state);
    state.toplevel_destroyed(2, 4);
    assert!(state.commands.is_empty());
    assert!(state.toplevels.get(&2).is_none());
    state.forget_window(2);
    assert!(state.windows.get(&2).is_none());
}

#[test]
fn the_end_of_a_window_focuses_the_topmost_one_left() {
    let mut state = desktop();
    open(&mut state, 1, window("a", None, 10, 10));
    open(&mut state, 2, window("b", None, 10, 10));
    open(&mut state, 3, window("c", None, 10, 10));
    taken(&mut state);
    state.toplevel_destroyed(3, 4);
    assert_eq!(order(&state), vec![1, 2]);
    assert_eq!(state.active_window, Some(2));
    let commands = taken(&mut state);
    assert_eq!(focuses(&commands), vec![Some(2)]);
    assert_eq!(commands[0], Command::UnmapWindow { window: 3 });
}

#[test]
fn the_end_of_the_last_window_clears_the_focus() {
    let mut state = desktop();
    open(&mut state, 1, window("a", None, 10, 10));
    state.layer_shell_on_demand_focus = Some(40);
    taken(&mut state);
    state.toplevel_destroyed(1, 4);
    assert_eq!(state.active_window, None);
    assert_eq!(state.layer_shell_on_demand_focus, None);
    assert_eq!(
        taken(&mut state),
        vec![
            Command::UnmapWindow { window: 1 },
            Command::SetKeyboardFocus { focus: None, serial: 4 },
        ]
    );
}

#[test]
fn the_end_of_an_unmapped_toplevel_changes_nothing_else() {
    let mut state = desktop();
    open(&mut state, 1, window("a", None, 10, 10));
    state.learn_window(2, window("b", None, 10, 10));
    state.new_toplevel(2);
    taken(&mut state);
    state.toplevel_destroyed(2, 4);
    assert!(state.commands.is_empty());
    assert_eq!(order(&state), vec![1]);
}

#[test]
fn focusing_raises_and_tells_configured_windows() {
    let mut state = desktop();
    open(&mut state, 1, window("a", None, 10, 10));
    open(&mut state, 2, window("b", None, 10, 10));
    state.layer_shell_on_demand_focus = Some(40);
    taken(&mut state);
    state.focus_window(1, 6);
    assert_eq!(order(&state), vec![2, 1]);
    assert_eq!(state.active_window, Some(1));
    assert_eq!(state.layer_shell_on_demand_focus, None);
    assert_eq!(
        taken(&mut state),
        vec![
            Command::RaiseWindow { window: 1, activate: true },
            Command::SendPendingConfigure { window: 2 },
            Command::SendPendingConfigure { window: 1 },
            Command::SetKeyboardFocus { focus: Some(1), serial: 6 },
        ]
    );
}

#[test]
fn a_fullscreen_window_keeps_the_focus() {
    let mut state = desktop();
    open(&mut state, 1, window("game", None, 10, 10));
    open(&mut state, 2, window("chat", None, 10, 10));
    state.fullscreen_request(1, 7);
    assert_eq!(mode(&state, 1), WindowMode::Fullscreen);
    assert_eq!(order(&state), vec![2, 1]);
    assert_eq!(state.active_window, Some(1));
    assert_eq!(state.active_fullscreen_window(), Some(1));
    taken(&mut state);
    state.focus_window(2, 8);
    state.request_activation(0, 2, 8);
    state.foreign_activate(2, 8);
    assert!(state.commands.is_empty());
    assert_eq!(order(&state), vec![2, 1]);
    state.focus_window(1, 8);
    assert_eq!(focuses(&state.commands), vec![Some(1)]);
}

#[test]
fn a_window_opens_below_a_fullscreen_one_and_gets_no_focus() {
    let mut state = desktop();
    open(&mut state, 1, window("game", None, 10, 10));
    state.fullscreen_request(1, 7);
    taken(&mut state);
    open(&mut state, 2, window("chat", None, 10, 10));
    assert_eq!(state.active_window, Some(1));
    assert_eq!(state.active_fullscreen_window(), Some(1));
    let commands = taken(&mut state);
    assert!(focuses(&commands).is_empty());
    assert_eq!(order(&state), vec![2, 1]);
    let map = Command::MapBelow { window: 2, loc: Point { x: 0, y: 30 }, reference: 1 };
    assert!(commands.contains(&map));
}

#[test]
fn a_dialog_of_a_fullscreen_window_opens_above_it() {
    let mut state = desktop();
    open(&mut state, 1, window("game", None, 800, 600));
    open(&mut state, 3, window("chat", None, 10, 10));
    state.fullscreen_request(1, 7);
    open(&mut state, 2, window("settings", Some(1), 100, 100));
    assert_eq!(order(&state), vec![3, 1, 2]);
    assert_eq!(state.active_window, Some(1));
    open(&mut state, 4, window("emoji", Some(3), 100, 100));
    assert_eq!(order(&state), vec![3, 4, 1, 2]);
    assert_eq!(state.active_window, Some(1));
}

#[test]
fn a_fixed_size_window_that_leaves_fullscreen_floats() {
    let mut state = desktop();
    open(&mut state, 1, window("game", None, 10, 10));
    state.fullscreen_request(1, 7);
    let mut win = window("game", None, 200, 100);
    win.max_size = Size { w: 200, h: 100 };
    win.initial_configure_sent = true;
    state.learn_window(1, win);
    taken(&mut state);
    state.unfullscreen_request(1);
    assert_eq!(mode(&state, 1), WindowMode::Floating);
    assert_eq!(
        taken(&mut state)[0],
        Command::SetPending {
            window: 1,
            change: PendingChange {
                size: SizeChange::Clear,
                bounds: Some(Size { w: 800, h: 570 }),
                maximized: Some(false),
                fullscreen: Some(false),
                activated: None,
            },
        }
    );
}

#[test]
fn a_window_that_became_a_dialog_floats_after_fullscreen() {
    let mut state = desktop();
    open(&mut state, 1, window("editor", None, 10, 10));
    open(&mut state, 2, window("preview", None, 10, 10));
    state.fullscreen_request(2, 7);
    state.learn_window(2, window("preview", Some(1), 10, 10));
    state.unfullscreen_request(2);
    assert_eq!(mode(&state, 2), WindowMode::Floating);
}

#[test]
fn a_tooltip_is_neither_maximized_nor_focused() {
    let mut state = desktop();
    open(&mut state, 1, window("editor", None, 800, 570));
    open(&mut state, 2, window("", None, 60, 20));
    taken(&mut state);
    state.maximize_request(2);
    state.unmaximize_request(2);
    state.fullscreen_request(2, 3);
    state.unfullscreen_request(2);
    state.request_activation(0, 2, 3);
    state.foreign_activate(2, 3);
    assert!(state.commands.is_empty());
    assert!(state.can_commit(2, None, None, false, None, 3));
    handle_commit(&mut state, 2, None, 3);
    assert!(state.commands.is_empty());
    assert_eq!(mode(&state, 2), WindowMode::Floating);
    assert_eq!(state.active_window, Some(1));
    assert_eq!(order(&state), vec![1]);
}

#[test]
fn leaving_fullscreen_returns_to_maximized() {
    let mut state = desktop();
    open(&mut state, 1, window("game", None, 10, 10));
    state.fullscreen_request(1, 7);
    taken(&mut state);
    state.unfullscreen_request(1);
    assert_eq!(mode(&state, 1), WindowMode::Maximized);
    assert_eq!(
        taken(&mut state),
        vec![
            Command::SetPending {
                window: 1,
                change: PendingChange {
                    size: SizeChange::To(Size { w: 800, h: 570 }),
                    bounds: None,
                    maximized: Some(true),
                    fullscreen: Some(false),
                    activated: None,
                },
            },
            Command::SendConfigure { window: 1 },
        ]
    );
    state.unfullscreen_request(1);
    assert!(state.commands.is_empty());
}

#[test]
fn fullscreen_takes_the_whole_output() {
    let mut state = desktop();
    open(&mut state, 1, window("game", None, 10, 10));
    taken(&mut state);
    state.fullscreen_request(1, 7);
    assert_eq!(
        taken(&mut state)[..4].to_vec(),
        vec![
            Command::SetPending {
                window: 1,
                change: PendingChange::fullscreen(Size { w: 800, h: 600 }),
            },
            Command::SendConfigure { window: 1 },
            Command::RaiseWindow { window: 1, activate: false },
            Command::RaiseWindow { window: 1, activate: true },
        ]
    );
    state.fullscreen_request(1, 7);
    assert!(state.commands.is_empty());
}

#[test]
fn maximizing_confirms_the_zone() {
    let mut state = desktop();
    open(&mut state, 1, window("editor", None, 10, 10));
    taken(&mut state);
    state.maximize_request(1);
    assert_eq!(
        taken(&mut state),
        vec![
            Command::SetPending {
                window: 1,
                change: PendingChange::maximize(Size { w: 800, h: 570 }),
            },
            Command::SendConfigure { window: 1 },
        ]
    );
}

#[test]
fn windows_cannot_leave_the_maximized_mode() {
    let mut state = desktop();
    open(&mut state, 1, window("editor", None, 10, 10));
    taken(&mut state);
    state.unmaximize_request(1);
    assert_eq!(mode(&state, 1), WindowMode::Maximized);
    assert_eq!(
        taken(&mut state)[0],
        Command::SetPending { window: 1, change: PendingChange::maximize(Size { w: 800, h: 570 }) }
    );
}

#[test]
fn requests_of_dialogs_are_ignored() {
    let mut state = desktop();
    open(&mut state, 1, window("editor", None, 800, 570));
    open(&mut state, 2, window("save as", Some(1), 300, 170));
    taken(&mut state);
    state.maximize_request(2);
    state.unmaximize_request(2);
    state.fullscreen_request(2, 3);
    state.unfullscreen_request(2);
    assert!(state.commands.is_empty());
    assert_eq!(mode(&state, 2), WindowMode::Floating);
}

#[test]
fn requests_of_fixed_size_windows_are_ignored() {
    let mut state = desktop();
    let mut win = window("calculator", None, 200, 300);
    win.max_size = Size { w: 200, h: 300 };
    open(&mut state, 1, win);
    taken(&mut state);
    state.maximize_request(1);
    state.unmaximize_request(1);
    state.fullscreen_request(1, 3);
    assert!(state.commands.is_empty());
    assert_eq!(mode(&state, 1), WindowMode::Floating);
}

#[test]
fn a_fullscreen_window_ignores_maximize_requests() {
    let mut state = desktop();
    open(&mut state, 1, window("game", None, 10, 10));
    state.fullscreen_request(1, 7);
    taken(&mut state);
    state.maximize_request(1);
    state.unmaximize_request(1);
    assert!(state.commands.is_empty());
    assert_eq!(mode(&state, 1), WindowMode::Fullscreen);
}

#[test]
fn late_size_hints_release_a_maximized_window() {
    let mut state = desktop();
    open(&mut state, 1, window("calculator", None, 200, 100));
    taken(&mut state);
    let mut win = window("calculator", None, 200, 100);
    win.initial_configure_sent = true;
    win.committed_maximized = true;
    win.max_size = Size { w: 200, h: 100 };
    state.learn_window(1, win);
    handle_commit(&mut state, 1, None, 3);
    assert_eq!(mode(&state, 1), WindowMode::Floating);
    assert_eq!(loc(&state, 1), Point { x: 300, y: 265 });
    assert_eq!(
        taken(&mut state),
        vec![
            Command::SetPending {
                window: 1,
                change: PendingChange::free_within(Size { w: 800, h: 570 }),
            },
            Command::SendPendingConfigure { window: 1 },
            Command::RelocateWindow { window: 1, loc: Point { x: 300, y: 265 } },
        ]
    );
}

#[test]
fn a_commit_that_agrees_changes_nothing() {
    let mut state = desktop();
    open(&mut state, 1, window("editor", None, 800, 570));
    let mut win = window("editor", None, 800, 570);
    win.initial_configure_sent = true;
    win.committed_maximized = true;
    state.learn_window(1, win);
    taken(&mut state);
    assert!(handle_commit(&mut state, 1, None, 3));
    assert!(state.commands.is_empty());
}

#[test]
fn commits_of_other_surfaces_are_left_to_others() {
    let mut state = desktop();
    assert!(!handle_commit(&mut state, 99, None, 3));
    assert!(state.commands.is_empty());
}

#[test]
fn reflow_fits_windows_into_a_changed_zone() {
    let mut state = desktop();
    open(&mut state, 1, window("editor", None, 800, 570));
    let mut fixed = window("calculator", None, 200, 100);
    fixed.max_size = Size { w: 200, h: 100 };
    open(&mut state, 2, fixed);
    open(&mut state, 3, window("save as", Some(1), 300, 170));
    assert_eq!(order(&state), vec![1, 2, 3]);
    state.space.outputs[0].zone = rect(50, 0, 750, 600);
    taken(&mut state);
    assert!(state.can_reflow());
    state.reflow_toplevels();
    assert_eq!(order(&state), vec![1, 2, 3]);
    assert_eq!(loc(&state, 1), Point { x: 50, y: 0 });
    assert_eq!(loc(&state, 2), Point { x: 325, y: 250 });
    assert_eq!(loc(&state, 3), Point { x: 300, y: 200 });
    assert_eq!(
        taken(&mut state)[..3].to_vec(),
        vec![
            Command::SetPending { window: 1, change: PendingChange::sized(Size { w: 750, h: 600 }) },
            Command::SendPendingConfigure { window: 1 },
            Command::RelocateWindow { window: 1, loc: Point { x: 50, y: 0 } },
        ]
    );
}

#[test]
fn reflow_without_an_output_does_nothing() {
    let mut state = State::new();
    open(&mut state, 1, window("editor", None, 800, 570));
    taken(&mut state);
    state.reflow_toplevels();
    assert!(state.commands.is_empty());
}

#[test]
fn tokens_expire() {
    let mut state = desktop();
    open(&mut state, 1, window("a", None, 10, 10));
    open(&mut state, 2, window("b", None, 10, 10));
    taken(&mut state);
    state.request_activation(10, 1, 3);
    assert!(state.commands.is_empty());
    state.request_activation(9, 77, 3);
    assert!(state.commands.is_empty());
    state.request_activation(9, 1, 3);
    assert_eq!(state.active_window, Some(1));
}

#[test]
fn a_reflow_that_leaves_the_coordinate_range_is_foreseen() {
    let mut state = desktop();
    let mut fixed = window("calculator", None, 200, 100);
    fixed.max_size = Size { w: 200, h: 100 };
    open(&mut state, 1, fixed);
    open(&mut state, 2, window("editor", None, 400, 300));
    open(&mut state, 3, window("save as", Some(2), 500, 100));
    assert!(state.can_reflow());
    let before = state.space.elements.clone();
    let edge = i32::MIN + 50;
    state.space.outputs[0].zone = rect(edge, 0, 200, 100);
    assert!(state.can_reflow());
    state.space.outputs[0].zone = rect(edge - 1, 0, 200, 100);
    assert!(!state.can_reflow());
    state.space.outputs[0].zone = rect(i32::MAX - 50, 0, 400, 300);
    assert!(!state.can_reflow());
    assert_eq!(state.space.elements, before);
    assert!(State::new().can_reflow());
}

#[test]
fn a_first_commit_that_leaves_the_coordinate_range_is_foreseen() {
    let mut state = desktop();
    state.space.outputs[0].zone = rect(i32::MAX - 50, 0, 800, 570);
    let mut fixed = window("calculator", None, 600, 100);
    fixed.max_size = Size { w: 600, h: 100 };
    state.learn_window(1, fixed);
    state.new_toplevel(1);
    assert!(!state.can_first_commit(1, 1));
    assert!(!state.can_commit(1, None, None, false, None, 1));
    assert!(state.can_promote(1, 1));
    state.space.outputs[0].zone = rect(i32::MAX - 100, 0, 800, 570);
    assert!(state.can_first_commit(1, 1));
    assert!(state.can_commit(1, None, None, false, None, 1));
}

#[test]
fn a_promotion_that_leaves_the_coordinate_range_is_foreseen() {
    let mut state = desktop();
    open(&mut state, 1, window("editor", None, i32::MAX, 10));
    open(&mut state, 2, window("", None, 10, 10));
    state.learn_window(2, window("", Some(1), -1, 10));
    assert!(!state.can_promote(2, 1));
    state.learn_window(2, window("", Some(1), 1, 10));
    assert!(state.can_promote(2, 1));
    state.promote_transient(2, None, 1);
    assert_eq!(loc(&state, 2), Point { x: 1_073_741_823, y: 30 });
}

#[test]
fn a_commit_that_leaves_the_coordinate_range_is_foreseen() {
    let mut state = desktop();
    open(&mut state, 1, window("editor", None, 800, 570));
    open(&mut state, 2, window("save as", Some(1), 300, 170));
    assert!(state.can_commit(1, Some(2), None, false, None, 1));
    assert!(state.can_commit(77, None, None, false, None, 1));
    state.learn_window(2, window("save as", Some(1), i32::MIN, 170));
    assert!(!state.can_commit(2, None, None, false, None, 1));
    assert!(!state.can_commit(1, Some(2), None, false, None, 1));
    assert!(state.can_commit(1, None, None, false, None, 1));
}

#[test]
fn a_stack_is_taken_over_only_if_it_is_in_order() {
    let mut state = desktop();
    state.learn_window(1, window("a", None, 10, 10));
    state.learn_window(2, window("b", None, 10, 10));
    let at = |window: u64| Element { window, loc: Point { x: 5, y: 6 } };
    assert!(state.set_stack(vec![at(2), at(1)]));
    assert_eq!(order(&state), vec![2, 1]);
    assert!(!state.set_stack(vec![at(1), at(2), at(1)]));
    assert!(!state.set_stack(vec![at(3)]));
    assert_eq!(order(&state), vec![2, 1]);
    assert!(state.set_stack(vec![]));
    assert!(order(&state).is_empty());
}

#[test]
fn facts_are_noted_and_commands_taken() {
    let mut state = State::new();
    state.set_outputs(vec![Output {
        id: 4,
        geometry: None,
        zone: rect(0, 0, 5, 6),
        layers: vec![],
    }]);
    assert_eq!(state.zone(), Some(rect(0, 0, 5, 6)));
    state.note_focus(Some(9));
    assert_eq!(state.keyboard_focus, Some(9));
    state.note_lock(true, vec![LockSurface { surface: 8, alive: true }], true);
    assert!(state.is_locked && state.pending_lock);
    assert_eq!(state.lock_surfaces, vec![LockSurface { surface: 8, alive: true }]);
    state.focus_topmost(3);
    let focus = Command::SetKeyboardFocus { focus: None, serial: 3 };
    assert_eq!(state.take_commands(), vec![focus]);
    assert!(state.take_commands().is_empty());
}

#[test]
fn a_proposal_keeps_what_a_change_does_not_mention() {
    let mut state = ToplevelState {
        size: None,
        bounds: Some(Size { w: 5, h: 6 }),
        maximized: false,
        fullscreen: false,
        activated: true,
    };
    state.apply(PendingChange::maximize(Size { w: 800, h: 570 }));
    let maximized = ToplevelState {
        size: Some(Size { w: 800, h: 570 }),
        bounds: Some(Size { w: 5, h: 6 }),
        maximized: true,
        fullscreen: false,
        activated: true,
    };
    assert_eq!(state, maximized);
    state.apply(PendingChange::fullscreen(Size { w: 800, h: 600 }));
    assert!(state.fullscreen);
    assert_eq!(state.size, Some(Size { w: 800, h: 600 }));
    state.apply(PendingChange::restore_maximized(Size { w: 800, h: 570 }));
    assert_eq!(state, maximized);
    state.apply(PendingChange::free_within(Size { w: 7, h: 8 }));
    assert_eq!(
        state,
        ToplevelState {
            size: None,
            bounds: Some(Size { w: 7, h: 8 }),
            maximized: false,
            fullscreen: false,
            activated: true,
        }
    );
    state.apply(PendingChange::activation(false));
    assert!(!state.activated);
}
