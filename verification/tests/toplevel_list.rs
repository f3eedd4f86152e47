//! The toplevel list that other clients watch.

use wlcompositor::command::Command;
use wlcompositor::geometry::{Point, Rect, Size};
use wlcompositor::handlers::foreign_toplevel::data::{
    Clients, ForeignEvent, OutputBinding, ToplevelSnapshot, WlrHandle,
};
use wlcompositor::handlers::foreign_toplevel::encoding::{to_state_vec, StateCodes};
use wlcompositor::handlers::foreign_toplevel::manager::{
    ForeignToplevelManagerState, WLR_MANAGEMENT_VERSION,
};
use wlcompositor::handlers::foreign_toplevel::refresh::HandleRequest;
use wlcompositor::state::State;
use wlcompositor::toplevel::{Window, WindowKind, WindowMode, WindowState};

fn nobody() -> Clients {
    Clients { live: vec![], bindings: vec![], live_resources: vec![] }
}

/// Client 5 has two objects for the output 11, client 6 has one.
fn two_clients() -> Clients {
    Clients {
        live: vec![5, 6],
        bindings: vec![
            OutputBinding { output: 11, client: 5, resource: 501 },
            OutputBinding { output: 11, client: 6, resource: 601 },
            OutputBinding { output: 11, client: 5, resource: 502 },
            OutputBinding { output: 12, client: 5, resource: 503 },
        ],
        live_resources: vec![501, 502, 503, 601],
    }
}

fn snapshot(surface: u64, title: &str) -> ToplevelSnapshot {
    ToplevelSnapshot {
        surface,
        title: title.to_string(),
        app_id: "app".to_string(),
        states: vec![],
        output: Some(11),
    }
}

fn handle(manager: u64, surface: u64) -> WlrHandle {
    WlrHandle { manager, surface }
}

fn heard(list: &mut ForeignToplevelManagerState) -> Vec<ForeignEvent> {
    std::mem::take(&mut list.events.events)
}

fn announced(manager: u64, surface: u64, title: &str, outputs: &[u64]) -> Vec<ForeignEvent> {
    let handle = handle(manager, surface);
    let mut events = vec![
        ForeignEvent::WlrNew { handle },
        ForeignEvent::WlrTitle { handle, title: title.to_string() },
        ForeignEvent::WlrAppId { handle, app_id: "app".to_string() },
        ForeignEvent::WlrState { handle, states: vec![] },
    ];
    for output in outputs {
        events.push(ForeignEvent::WlrOutputEnter { handle, output: *output });
    }
    events.push(ForeignEvent::WlrDone { handle });
    events
}

#[test]
fn the_offered_version_has_output_events() {
    assert_eq!(WLR_MANAGEMENT_VERSION, 3);
}

#[test]
fn a_new_list_is_empty() {
    let list = ForeignToplevelManagerState::new();
    assert!(list.toplevels.is_empty());
    assert!(list.wlr_management_instances.is_empty());
    assert!(list.events.events.is_empty());
}

#[test]
fn states_have_the_numbers_of_the_protocol() {
    let codes = StateCodes::native();
    assert_eq!(codes.maximized, 0u32.to_ne_bytes());
    assert_eq!(codes.activated, 2u32.to_ne_bytes());
    assert_eq!(codes.fullscreen, 3u32.to_ne_bytes());
}

#[test]
fn the_codes_follow_the_byte_order_of_the_machine() {
    let little = StateCodes::like([1, 0, 0, 0]);
    assert_eq!(little.maximized, [0, 0, 0, 0]);
    assert_eq!(little.activated, [2, 0, 0, 0]);
    assert_eq!(little.fullscreen, [3, 0, 0, 0]);
    let big = StateCodes::like([0, 0, 0, 1]);
    assert_eq!(big.maximized, [0, 0, 0, 0]);
    assert_eq!(big.activated, [0, 0, 0, 2]);
    assert_eq!(big.fullscreen, [0, 0, 0, 3]);
    assert_eq!(StateCodes::native(), StateCodes::like(1u32.to_ne_bytes()));
}

#[test]
fn the_payload_lists_the_states() {
    let codes = StateCodes::native();
    assert_eq!(to_state_vec(&codes, WindowMode::Floating, false), Vec::<u8>::new());
    assert_eq!(to_state_vec(&codes, WindowMode::Floating, true), 2u32.to_ne_bytes().to_vec());
    assert_eq!(to_state_vec(&codes, WindowMode::Maximized, false), 0u32.to_ne_bytes().to_vec());
    let mut both = 3u32.to_ne_bytes().to_vec();
    both.extend(2u32.to_ne_bytes());
    assert_eq!(to_state_vec(&codes, WindowMode::Fullscreen, true), both);
}

#[test]
fn payloads_differ_for_different_states() {
    let codes = StateCodes::native();
    let modes = [WindowMode::Floating, WindowMode::Maximized, WindowMode::Fullscreen];
    let mut payloads = vec![];
    for mode in modes {
        for focused in [false, true] {
            payloads.push(to_state_vec(&codes, mode, focused));
        }
    }
    for (i, a) in payloads.iter().enumerate() {
        for (j, b) in payloads.iter().enumerate() {
            assert_eq!(a == b, i == j);
        }
    }
}

#[test]
fn a_new_toplevel_is_announced_to_every_connected_manager() {
    let mut list = ForeignToplevelManagerState::new();
    list.bind(1, 5, &two_clients());
    list.bind(2, 6, &two_clients());
    list.bind(3, 7, &two_clients());
    list.apply(&vec![snapshot(21, "editor")], &two_clients());
    let mut expected = vec![ForeignEvent::ExtNew {
        surface: 21,
        title: "editor".to_string(),
        app_id: "app".to_string(),
    }];
    expected.extend(announced(1, 21, "editor", &[501, 502]));
    expected.extend(announced(2, 21, "editor", &[601]));
    assert_eq!(heard(&mut list), expected);
    assert_eq!(list.surface_for_wlr_handle(handle(1, 21)), Some(21));
    assert_eq!(list.surface_for_wlr_handle(handle(3, 21)), None);
}

#[test]
fn a_new_manager_hears_of_all_toplevels() {
    let mut list = ForeignToplevelManagerState::new();
    list.apply(&vec![snapshot(21, "a"), snapshot(22, "b")], &nobody());
    heard(&mut list);
    list.bind(1, 6, &two_clients());
    let mut expected = announced(1, 21, "a", &[601]);
    expected.extend(announced(1, 22, "b", &[601]));
    assert_eq!(heard(&mut list), expected);
}

#[test]
fn an_unchanged_toplevel_says_nothing() {
    let mut list = ForeignToplevelManagerState::new();
    list.bind(1, 5, &two_clients());
    list.apply(&vec![snapshot(21, "a"), snapshot(22, "b")], &two_clients());
    heard(&mut list);
    list.apply(&vec![snapshot(22, "b"), snapshot(21, "a")], &two_clients());
    assert!(list.events.events.is_empty());
}

#[test]
fn a_changed_title_is_told_everywhere() {
    let mut list = ForeignToplevelManagerState::new();
    list.bind(1, 5, &two_clients());
    list.apply(&vec![snapshot(21, "a")], &two_clients());
    heard(&mut list);
    list.apply(&vec![snapshot(21, "b")], &two_clients());
    let h = handle(1, 21);
    assert_eq!(
        heard(&mut list),
        vec![
            ForeignEvent::ExtTitle { surface: 21, title: "b".to_string() },
            ForeignEvent::ExtDone { surface: 21 },
            ForeignEvent::WlrTitle { handle: h, title: "b".to_string() },
            ForeignEvent::WlrDone { handle: h },
        ]
    );
}

#[test]
fn changed_states_are_told_to_managers_only() {
    let mut list = ForeignToplevelManagerState::new();
    list.bind(1, 5, &two_clients());
    list.apply(&vec![snapshot(21, "a")], &two_clients());
    heard(&mut list);
    let mut focused = snapshot(21, "a");
    focused.states = vec![2, 0, 0, 0];
    focused.app_id = "other".to_string();
    list.apply(&vec![focused], &two_clients());
    let h = handle(1, 21);
    assert_eq!(
        heard(&mut list),
        vec![
            ForeignEvent::ExtAppId { surface: 21, app_id: "other".to_string() },
            ForeignEvent::ExtDone { surface: 21 },
            ForeignEvent::WlrAppId { handle: h, app_id: "other".to_string() },
            ForeignEvent::WlrState { handle: h, states: vec![2, 0, 0, 0] },
            ForeignEvent::WlrDone { handle: h },
        ]
    );
}

#[test]
fn a_toplevel_leaves_the_old_output_and_enters_the_new_one() {
    let mut list = ForeignToplevelManagerState::new();
    list.bind(1, 5, &two_clients());
    list.apply(&vec![snapshot(21, "a")], &two_clients());
    heard(&mut list);
    let mut moved = snapshot(21, "a");
    moved.output = Some(12);
    list.apply(&vec![moved], &two_clients());
    let h = handle(1, 21);
    assert_eq!(
        heard(&mut list),
        vec![
            ForeignEvent::WlrOutputLeave { handle: h, output: 501 },
            ForeignEvent::WlrOutputLeave { handle: h, output: 502 },
            ForeignEvent::WlrOutputEnter { handle: h, output: 503 },
            ForeignEvent::WlrDone { handle: h },
        ]
    );
}

#[test]
fn dead_output_objects_are_forgotten() {
    let mut list = ForeignToplevelManagerState::new();
    list.bind(1, 5, &two_clients());
    list.apply(&vec![snapshot(21, "a")], &two_clients());
    heard(&mut list);
    let mut clients = two_clients();
    clients.live_resources = vec![502, 503];
    list.apply(&vec![snapshot(21, "a")], &clients);
    assert!(list.events.events.is_empty());
    assert_eq!(list.toplevels[0].wlr_management_instances[0].outputs, vec![502]);
}

#[test]
fn a_toplevel_that_is_gone_is_closed() {
    let mut list = ForeignToplevelManagerState::new();
    list.bind(1, 5, &two_clients());
    list.bind(2, 6, &two_clients());
    list.apply(&vec![snapshot(21, "a"), snapshot(22, "b"), snapshot(23, "c")], &two_clients());
    heard(&mut list);
    list.apply(&vec![snapshot(21, "a"), snapshot(23, "c")], &two_clients());
    assert_eq!(
        heard(&mut list),
        vec![
            ForeignEvent::ExtClosed { surface: 22 },
            ForeignEvent::WlrClosed { handle: handle(1, 22) },
            ForeignEvent::WlrClosed { handle: handle(2, 22) },
        ]
    );
    assert_eq!(list.surface_for_wlr_handle(handle(1, 22)), None);
    assert_eq!(list.toplevels.len(), 2);
}

#[test]
fn a_manager_that_stopped_hears_of_no_new_toplevel() {
    let mut list = ForeignToplevelManagerState::new();
    list.bind(1, 5, &two_clients());
    list.apply(&vec![snapshot(21, "a")], &two_clients());
    heard(&mut list);
    list.stop(1);
    assert_eq!(heard(&mut list), vec![ForeignEvent::WlrFinished { manager: 1 }]);
    list.apply(&vec![snapshot(21, "z"), snapshot(22, "b")], &two_clients());
    let h = handle(1, 21);
    assert_eq!(
        heard(&mut list),
        vec![
            ForeignEvent::ExtTitle { surface: 21, title: "z".to_string() },
            ForeignEvent::ExtDone { surface: 21 },
            ForeignEvent::WlrTitle { handle: h, title: "z".to_string() },
            ForeignEvent::WlrDone { handle: h },
            ForeignEvent::ExtNew {
                surface: 22,
                title: "b".to_string(),
                app_id: "app".to_string(),
            },
        ]
    );
}

#[test]
fn a_destroyed_manager_is_forgotten() {
    let mut list = ForeignToplevelManagerState::new();
    list.bind(1, 5, &two_clients());
    list.bind(2, 5, &two_clients());
    list.manager_destroyed(1);
    assert_eq!(list.wlr_management_instances.len(), 1);
    assert_eq!(list.wlr_management_instances[0].id, 2);
    assert!(list.events.events.is_empty());
}

#[test]
fn a_destroyed_handle_stands_for_nothing() {
    let mut list = ForeignToplevelManagerState::new();
    list.bind(1, 5, &two_clients());
    list.bind(2, 6, &two_clients());
    list.apply(&vec![snapshot(21, "a")], &two_clients());
    list.remove_wlr_instance(handle(1, 21));
    assert_eq!(list.surface_for_wlr_handle(handle(1, 21)), None);
    assert_eq!(list.surface_for_wlr_handle(handle(2, 21)), Some(21));
}

#[test]
fn a_handle_that_cannot_be_created_leaves_no_trace() {
    let mut list = ForeignToplevelManagerState::new();
    list.bind(1, 5, &two_clients());
    list.bind(2, 6, &two_clients());
    list.apply(&vec![snapshot(21, "editor")], &two_clients());
    assert!(matches!(list.events.pop(), Some(ForeignEvent::ExtNew { surface: 21, .. })));
    assert_eq!(list.events.pop(), Some(ForeignEvent::WlrNew { handle: handle(1, 21) }));
    list.retract(handle(1, 21));
    assert_eq!(heard(&mut list), announced(2, 21, "editor", &[601]));
    assert_eq!(list.events.pop(), None);
    assert_eq!(list.surface_for_wlr_handle(handle(1, 21)), None);
    assert_eq!(list.surface_for_wlr_handle(handle(2, 21)), Some(21));
    assert_eq!(list.toplevels[0].wlr_management_instances.len(), 1);
    list.apply(&vec![snapshot(21, "editor 2")], &two_clients());
    assert!(heard(&mut list).iter().all(|event| !event.concerns(handle(1, 21))));
}

#[test]
fn every_toplevel_is_in_the_ext_list_under_its_surface() {
    let mut list = ForeignToplevelManagerState::new();
    list.apply(&vec![snapshot(21, "a"), snapshot(22, "b")], &nobody());
    list.apply(&vec![snapshot(22, "c"), snapshot(23, "d")], &nobody());
    for toplevel in &list.toplevels {
        assert_eq!(toplevel.ext_handle, Some(toplevel.surface));
    }
}

fn desktop() -> State {
    let mut state = State::new();
    for (w, title) in [(1, "a"), (2, "b"), (3, "c")] {
        state.learn_window(
            w,
            Window {
                title: title.to_string(),
                app_id: String::new(),
                parent: None,
                geometry: Rect { loc: Point { x: 0, y: 0 }, size: Size { w: 10, h: 10 } },
                max_size: Size { w: 0, h: 0 },
                initial_configure_sent: true,
                committed_maximized: true,
                alive: true,
                output: Some(11),
            },
        );
        state.new_toplevel(w);
    }
    state.commands.clear();
    state
}

#[test]
fn snapshots_list_live_toplevels_with_the_focused_one_last() {
    let mut state = desktop();
    state.windows.get_mut(&3).unwrap().alive = false;
    state.keyboard_focus = Some(1);
    state.toplevels.insert(
        1,
        WindowState {
            kind: WindowKind::Normal,
            mode: WindowMode::Maximized,
            mapped: true,
            modal: false,
        },
    );
    let snapshots = state.snapshots();
    assert_eq!(snapshots.len(), 2);
    assert_eq!(snapshots[0].surface, 2);
    assert_eq!(snapshots[0].states, Vec::<u8>::new());
    assert_eq!(snapshots[1].surface, 1);
    assert_eq!(snapshots[1].title, "a");
    assert_eq!(snapshots[1].output, Some(11));
    let mut states = 0u32.to_ne_bytes().to_vec();
    states.extend(2u32.to_ne_bytes());
    assert_eq!(snapshots[1].states, states);
}

#[test]
fn a_refresh_lists_the_toplevels_and_a_second_one_is_silent() {
    let mut state = desktop();
    state.keyboard_focus = Some(2);
    state.foreign_toplevel_refresh(&nobody());
    let events = heard(&mut state.foreign_toplevel);
    assert_eq!(events.len(), 3);
    assert_eq!(
        events[2],
        ForeignEvent::ExtNew { surface: 2, title: "b".to_string(), app_id: String::new() }
    );
    state.foreign_toplevel_refresh(&nobody());
    assert!(state.foreign_toplevel.events.events.is_empty());
    state.toplevel_destroyed(1, 1);
    state.foreign_toplevel_refresh(&nobody());
    assert_eq!(
        heard(&mut state.foreign_toplevel),
        vec![ForeignEvent::ExtClosed { surface: 1 }]
    );
}

#[test]
fn a_client_activates_and_closes_toplevels() {
    let mut state = desktop();
    state.foreign_toplevel.bind(9, 5, &two_clients());
    state.foreign_toplevel_refresh(&two_clients());
    state.handle_request(handle(9, 2), HandleRequest::Activate, 77);
    assert_eq!(state.active_window, Some(2));
    assert_eq!(
        state.commands.last(),
        Some(&Command::SetKeyboardFocus { focus: Some(2), serial: 77 })
    );
    state.commands.clear();
    state.handle_request(handle(9, 2), HandleRequest::Close, 78);
    assert_eq!(state.commands, vec![Command::SendClose { window: 2 }]);
}

#[test]
fn other_requests_of_clients_are_ignored() {
    let mut state = desktop();
    state.foreign_toplevel.bind(9, 5, &two_clients());
    state.foreign_toplevel_refresh(&two_clients());
    for request in [
        HandleRequest::SetMaximized,
        HandleRequest::UnsetMaximized,
        HandleRequest::SetMinimized,
        HandleRequest::UnsetMinimized,
        HandleRequest::SetRectangle,
        HandleRequest::SetFullscreen,
        HandleRequest::UnsetFullscreen,
        HandleRequest::Destroy,
    ] {
        state.handle_request(handle(9, 2), request, 1);
    }
    state.handle_request(handle(8, 2), HandleRequest::Close, 1);
    state.handle_request(handle(9, 4), HandleRequest::Activate, 1);
    state.foreign_close(55);
    state.foreign_activate(55, 1);
    assert!(state.commands.is_empty());
}
