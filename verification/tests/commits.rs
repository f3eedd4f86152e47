//! Surface commits, layer surfaces and popups.

use wlcompositor::command::Command;
use wlcompositor::geometry::{Point, Rect, Size};
use wlcompositor::handlers::compositor::PopupCommit;
use wlcompositor::handlers::layer_shell;
use wlcompositor::handlers::xdg_shell::popups::{
    grab, DeviceGrab, GrabStep, PopupFit, PopupPlace,
};
use wlcompositor::space::{Interactivity, Layer, LayerKind, Output};
use wlcompositor::state::State;
use wlcompositor::toplevel::Window;

fn rect(x: i32, y: i32, w: i32, h: i32) -> Rect {
    Rect { loc: Point { x, y }, size: Size { w, h } }
}

fn window(title: &str, parent: Option<u64>, w: i32, h: i32) -> Window {
    Window {
        title: title.to_string(),
        app_id: "app".to_string(),
        parent,
        geometry: rect(0, 0, w, h),
        max_size: Size { w: 0, h: 0 },
        initial_configure_sent: false,
        committed_maximized: false,
        alive: true,
        output: None,
    }
}

fn layer(surface: u64, kind: LayerKind, interactivity: Interactivity) -> Layer {
    Layer {
        surface,
        geometry: Some(rect(0, 0, 800, 30)),
        kind,
        interactivity,
        initial_configure_sent: false,
    }
}

fn desktop(layers: Vec<Layer>) -> State {
    let mut state = State::new();
    state.space.outputs.push(Output {
        id: 11,
        geometry: Some(rect(0, 0, 800, 600)),
        zone: rect(0, 30, 800, 570),
        layers,
    });
    state
}

fn commit(state: &mut State, surface: u64) {
    let child = state.begin_commit(surface, &vec![], false);
    assert!(state.can_commit(surface, child, None, false, None, 1));
    state.commit(surface, child, None, false, None, 1);
}

fn open(state: &mut State, w: u64, win: Window) {
    state.learn_window(w, win);
    state.new_toplevel(w);
    commit(state, w);
}

fn taken(state: &mut State) -> Vec<Command> {
    std::mem::take(&mut state.commands)
}

#[test]
fn a_commit_of_a_subsurface_reaches_its_window() {
    let mut state = desktop(vec![]);
    open(&mut state, 1, window("editor", None, 800, 570));
    taken(&mut state);
    assert_eq!(state.begin_commit(50, &vec![51, 1], false), None);
    assert_eq!(taken(&mut state), vec![Command::WindowCommitted { window: 1 }]);
}

#[test]
fn a_commit_of_a_synchronized_subsurface_waits_for_its_parent() {
    let mut state = desktop(vec![]);
    open(&mut state, 1, window("editor", None, 800, 570));
    taken(&mut state);
    assert_eq!(state.begin_commit(50, &vec![1], true), None);
    assert!(state.commands.is_empty());
}

#[test]
fn a_commit_of_a_dialog_centers_it() {
    let mut state = desktop(vec![]);
    open(&mut state, 1, window("editor", None, 800, 570));
    open(&mut state, 2, window("save as", Some(1), 300, 170));
    let mut grown = window("save as", Some(1), 400, 270);
    grown.initial_configure_sent = true;
    state.learn_window(2, grown);
    taken(&mut state);
    let child = state.begin_commit(60, &vec![2], false);
    assert_eq!(child, Some(2));
    state.commit(60, child, None, false, None, 1);
    assert_eq!(state.space.elements[1].loc, Point { x: 200, y: 180 });
}

#[test]
fn a_popup_is_configured_with_its_first_commit() {
    let mut state = desktop(vec![]);
    let first = PopupCommit { xdg: true, initial_configure_sent: false };
    state.commit(70, None, Some(first), false, None, 1);
    assert_eq!(taken(&mut state), vec![Command::SendPopupConfigure { popup: 70 }]);
    let later = PopupCommit { xdg: true, initial_configure_sent: true };
    state.commit(70, None, Some(later), false, None, 1);
    let other = PopupCommit { xdg: false, initial_configure_sent: false };
    state.commit(70, None, Some(other), false, None, 1);
    assert!(state.commands.is_empty());
}

#[test]
fn a_layer_goes_to_the_output_it_asks_for() {
    let mut state = desktop(vec![]);
    state.new_layer_surface(40, Some(12));
    state.new_layer_surface(41, None);
    assert_eq!(
        taken(&mut state),
        vec![
            Command::MapLayer { surface: 40, output: 12 },
            Command::MapLayer { surface: 41, output: 11 },
        ]
    );
    let mut bare = State::new();
    bare.new_layer_surface(40, None);
    assert!(bare.commands.is_empty());
}

#[test]
fn an_upper_layer_takes_the_focus_when_it_opens() {
    let mut state = desktop(vec![layer(40, LayerKind::Top, Interactivity::OnDemand)]);
    assert!(layer_shell::handle_commit(&mut state, 40, false));
    assert_eq!(taken(&mut state), vec![Command::SendLayerConfigure { surface: 40 }]);
    assert_eq!(state.layer_shell_on_demand_focus, Some(40));
}

#[test]
fn other_layers_wait_for_a_click() {
    let layers = vec![
        layer(40, LayerKind::Bottom, Interactivity::OnDemand),
        layer(41, LayerKind::Background, Interactivity::OnDemand),
        layer(42, LayerKind::Overlay, Interactivity::Exclusive),
        layer(43, LayerKind::Top, Interactivity::Never),
    ];
    let mut state = desktop(layers);
    for surface in 40..44 {
        assert!(layer_shell::handle_commit(&mut state, surface, false));
        assert_eq!(state.layer_shell_on_demand_focus, None);
    }
    assert!(!layer_shell::handle_commit(&mut state, 44, false));
}

#[test]
fn an_open_layer_is_not_owed_the_focus_again() {
    let mut open_layer = layer(40, LayerKind::Overlay, Interactivity::OnDemand);
    open_layer.initial_configure_sent = true;
    let mut state = desktop(vec![open_layer]);
    layer_shell::handle_commit(&mut state, 40, false);
    assert!(state.commands.is_empty());
    assert_eq!(state.layer_shell_on_demand_focus, None);
}

#[test]
fn a_changed_layout_places_the_windows_anew() {
    let mut state = desktop(vec![layer(40, LayerKind::Top, Interactivity::Never)]);
    open(&mut state, 1, window("editor", None, 800, 570));
    state.space.outputs[0].zone = rect(0, 50, 800, 550);
    taken(&mut state);
    layer_shell::handle_commit(&mut state, 40, true);
    assert_eq!(state.space.elements[0].loc, Point { x: 0, y: 50 });
    assert_eq!(state.commands[0], Command::SendLayerConfigure { surface: 40 });
}

#[test]
fn an_unchanged_layout_moves_no_window() {
    let mut state = desktop(vec![layer(40, LayerKind::Top, Interactivity::Never)]);
    open(&mut state, 1, window("editor", None, 800, 570));
    state.space.outputs[0].zone = rect(0, 50, 800, 550);
    layer_shell::handle_commit(&mut state, 40, false);
    assert_eq!(state.space.elements[0].loc, Point { x: 0, y: 30 });
}

#[test]
fn a_layer_that_is_gone_is_owed_nothing() {
    let mut state = desktop(vec![layer(40, LayerKind::Top, Interactivity::OnDemand)]);
    state.layer_shell_on_demand_focus = Some(40);
    state.layer_destroyed(40);
    assert_eq!(state.layer_shell_on_demand_focus, None);
    assert_eq!(taken(&mut state), vec![Command::UnmapLayer { surface: 40, output: 11 }]);
    state.layer_shell_on_demand_focus = Some(41);
    state.layer_destroyed(40);
    assert_eq!(state.layer_shell_on_demand_focus, Some(41));
}

#[test]
fn a_popup_is_kept_on_the_output() {
    let mut state = desktop(vec![]);
    open(&mut state, 1, window("editor", None, 800, 570));
    taken(&mut state);
    let place = PopupPlace { root: Some(1), offset: Point { x: 5, y: 7 } };
    let target = rect(-5, -37, 800, 600);
    assert_eq!(state.unconstrain_popup(place), Some(target));
    let fit = PopupFit { target, geometry: rect(10, 20, 30, 40) };
    state.new_popup(70, true, place, Some(fit));
    assert_eq!(
        taken(&mut state),
        vec![
            Command::SetPopupGeometry { popup: 70, geometry: rect(10, 20, 30, 40) },
            Command::TrackPopup { popup: 70 },
        ]
    );
    let stale = PopupFit { target: rect(0, 0, 800, 600), ..fit };
    state.new_popup(70, true, place, Some(stale));
    assert_eq!(taken(&mut state), vec![Command::TrackPopup { popup: 70 }]);
}

#[test]
fn a_popup_without_a_parent_is_left_alone() {
    let mut state = desktop(vec![]);
    let place = PopupPlace { root: None, offset: Point { x: 0, y: 0 } };
    assert_eq!(state.unconstrain_popup(place), None);
    state.new_popup(70, false, place, None);
    assert!(state.commands.is_empty());
    state.new_popup(70, true, place, None);
    assert_eq!(taken(&mut state), vec![Command::TrackPopup { popup: 70 }]);
}

#[test]
fn a_popup_of_a_layer_is_kept_on_its_output() {
    let mut panel = layer(40, LayerKind::Top, Interactivity::Never);
    panel.geometry = Some(rect(0, 570, 800, 30));
    let mut state = desktop(vec![panel]);
    let place = PopupPlace { root: Some(40), offset: Point { x: 1, y: 2 } };
    let target = rect(-1, -572, 800, 600);
    assert_eq!(state.unconstrain_layer_popup(place), Some(target));
    let fit = PopupFit { target, geometry: rect(1, 2, 3, 4) };
    state.new_layer_popup(70, place, Some(fit));
    assert_eq!(
        taken(&mut state),
        vec![
            Command::SetPopupGeometry { popup: 70, geometry: rect(1, 2, 3, 4) },
            Command::TrackPopup { popup: 70 },
        ]
    );
}

#[test]
fn a_popup_is_repositioned() {
    let mut state = desktop(vec![]);
    open(&mut state, 1, window("editor", None, 800, 570));
    taken(&mut state);
    let place = PopupPlace { root: Some(1), offset: Point { x: 0, y: 0 } };
    let target = rect(0, -30, 800, 600);
    assert_eq!(state.unconstrain_popup(place), Some(target));
    let fit = PopupFit { target, geometry: rect(700, 20, 100, 40) };
    state.reposition_request(70, place, rect(750, 20, 100, 40), Some(fit), 33);
    assert_eq!(
        taken(&mut state),
        vec![
            Command::AdoptPositioner { popup: 70, geometry: rect(750, 20, 100, 40) },
            Command::SetPopupGeometry { popup: 70, geometry: rect(700, 20, 100, 40) },
            Command::SendRepositioned { popup: 70, token: 33 },
        ]
    );
}

#[test]
fn a_layer_that_is_owed_the_focus_gets_it_once() {
    let mut state = desktop(vec![layer(40, LayerKind::Top, Interactivity::OnDemand)]);
    state.give_owed_focus(5);
    assert!(state.commands.is_empty());
    state.layer_shell_on_demand_focus = Some(40);
    state.note_focus(Some(1));
    state.note_lock(true, vec![], false);
    state.give_owed_focus(5);
    assert!(state.commands.is_empty());
    state.note_lock(false, vec![], false);
    state.give_owed_focus(5);
    assert_eq!(
        taken(&mut state),
        vec![Command::SetKeyboardFocus { focus: Some(40), serial: 5 }]
    );
    state.note_focus(Some(40));
    state.give_owed_focus(6);
    assert!(state.commands.is_empty());
}

#[test]
fn a_popup_grab_can_be_granted_device_by_device() {
    let free = DeviceGrab { grabbed: false, has_serial: false, has_previous: false };
    let taken = DeviceGrab { grabbed: true, has_serial: false, has_previous: false };
    for pointer in [None, Some(free), Some(taken)] {
        let mut steps = grab(true, Some(free), None);
        assert!(!steps.contains(&GrabStep::UngrabAll));
        steps.extend(grab(true, None, pointer));
        assert_eq!(steps, grab(true, Some(free), pointer));
        assert_eq!(grab(true, Some(taken), None), grab(true, Some(taken), pointer));
    }
}

#[test]
fn a_popup_grab_takes_keyboard_and_pointer() {
    let free = DeviceGrab { grabbed: false, has_serial: false, has_previous: false };
    assert_eq!(
        grab(true, Some(free), Some(free)),
        vec![GrabStep::FocusPopup, GrabStep::GrabKeyboard, GrabStep::GrabPointer]
    );
    assert_eq!(grab(true, None, Some(free)), vec![GrabStep::GrabPointer]);
    assert_eq!(grab(true, Some(free), None), vec![GrabStep::FocusPopup, GrabStep::GrabKeyboard]);
    assert_eq!(grab(false, Some(free), Some(free)), vec![]);
}

#[test]
fn a_popup_grab_is_dismissed_when_a_device_is_taken() {
    let free = DeviceGrab { grabbed: false, has_serial: false, has_previous: false };
    let taken = DeviceGrab { grabbed: true, has_serial: false, has_previous: false };
    assert_eq!(grab(true, Some(taken), Some(free)), vec![GrabStep::UngrabAll]);
    assert_eq!(
        grab(true, Some(free), Some(taken)),
        vec![GrabStep::FocusPopup, GrabStep::GrabKeyboard, GrabStep::UngrabAll]
    );
    let ours = DeviceGrab { grabbed: true, has_serial: true, has_previous: false };
    let nested = DeviceGrab { grabbed: true, has_serial: false, has_previous: true };
    assert_eq!(
        grab(true, Some(ours), Some(nested)),
        vec![GrabStep::FocusPopup, GrabStep::GrabKeyboard, GrabStep::GrabPointer]
    );
}
