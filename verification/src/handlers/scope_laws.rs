//! What the reactions leave alone.

use vstd::prelude::*;
use crate::command::Command;
use crate::geometry::{Point, Rect};
use crate::handlers::compositor::PopupCommit;
use crate::handlers::foreign_toplevel::data::WlrHandle;
use crate::handlers::foreign_toplevel::refresh::HandleRequest;
use crate::input::InputEvent;
use crate::space::Element;
use crate::state::StateView;

verus! {

/// Whether the outputs, the lock, the surface with the focus and the toplevel list are the same.
pub open spec fn surroundings_kept(s: StateView, t: StateView) -> bool {
    &&& t.outputs == s.outputs
    &&& t.keyboard_focus == s.keyboard_focus
    &&& t.is_locked == s.is_locked
    &&& t.lock_surfaces == s.lock_surfaces
    &&& t.pending_lock == s.pending_lock
    &&& t.foreign == s.foreign
}

proof fn lemma_reflow_kept(s: StateView, ws: Seq<u64>, zone: Rect)
    ensures
        surroundings_kept(s, s.reflow_windows(ws, zone)),
        s.reflow_windows(ws, zone).toplevels == s.toplevels,
        s.reflow_windows(ws, zone).active_window == s.active_window,
        s.reflow_windows(ws, zone).layer_shell_on_demand_focus == s.layer_shell_on_demand_focus,
    decreases ws.len(),
{
    if ws.len() > 0 {
        lemma_reflow_kept(s, ws.drop_last(), zone);
    }
}

proof fn lemma_reflow_all_kept(s: StateView)
    ensures
        surroundings_kept(s, s.reflow_toplevels()),
        s.reflow_toplevels().toplevels == s.toplevels,
        s.reflow_toplevels().active_window == s.active_window,
        s.reflow_toplevels().layer_shell_on_demand_focus == s.layer_shell_on_demand_focus,
{
    if s.outputs.len() > 0 {
        lemma_reflow_kept(s, crate::space::windows_of(s.elements), s.outputs[0].zone);
    }
}

proof fn lemma_map_kept(s: StateView, w: u64, serial: u32)
    ensures
        surroundings_kept(s, s.map_toplevel(w, serial)),
        s.map_toplevel(w, serial).toplevels.remove(w) == s.toplevels.remove(w),
{
    let p = s.propose_mapping(w);
    let m = p.map_below_fullscreen(w, s.mapped_loc(w));
    let f = m.focus_window(w, serial);
    assert(surroundings_kept(s, m));
    assert(surroundings_kept(s, f));
    assert(f.toplevels == p.toplevels);
    let t = s.map_toplevel(w, serial);
    assert(t.toplevels.remove(w) =~= s.toplevels.remove(w));
}

proof fn lemma_first_kept(s: StateView, w: u64, pointer: Option<Point>, serial: u32)
    ensures
        surroundings_kept(s, s.first_commit(w, pointer, serial)),
        s.first_commit(w, pointer, serial).toplevels.remove(w) == s.toplevels.remove(w),
{
    if s.is_anonymous(w) {
        assert(s.map_transient(w, pointer).toplevels.remove(w) =~= s.toplevels.remove(w));
    } else {
        lemma_map_kept(s, w, serial);
    }
}

proof fn lemma_recheck_kept(s: StateView, w: u64)
    ensures
        surroundings_kept(s, s.recheck_maximize(w)),
        s.recheck_maximize(w).toplevels.remove(w) == s.toplevels.remove(w),
{
    assert(s.recheck_maximize(w).toplevels.remove(w) =~= s.toplevels.remove(w));
}

proof fn lemma_toplevel_commit_kept(s: StateView, w: u64, pointer: Option<Point>, serial: u32)
    ensures
        surroundings_kept(s, s.toplevel_commit(w, pointer, serial)),
        s.toplevel_commit(w, pointer, serial).toplevels.remove(w) == s.toplevels.remove(w),
{
    reveal(StateView::toplevel_commit);
    lemma_first_kept(s, w, pointer, serial);
    assert(s.keep_transient_inside(w).toplevels.remove(w) =~= s.toplevels.remove(w));
    let m = s.commit_mapping(w, pointer, serial);
    lemma_recheck_kept(m, w);
}

proof fn lemma_layer_commit_kept(s: StateView, surface: u64, layout_changed: bool)
    ensures
        surroundings_kept(s, s.layer_commit(surface, layout_changed)),
        s.layer_commit(surface, layout_changed).toplevels == s.toplevels,
{
    reveal(StateView::layer_commit);
    let a = if !s.layer(surface).initial_configure_sent {
        s.emit(Command::SendLayerConfigure { surface })
    } else {
        s
    };
    lemma_reflow_all_kept(a);
}

/// Commits leave the outputs, the lock, the surface with the focus and the toplevel list alone, and
/// treat no other toplevel otherwise than before.
pub proof fn law_commits_keep_surroundings(
    s: StateView,
    surface: u64,
    child: Option<u64>,
    popup: Option<PopupCommit>,
    layout_changed: bool,
    pointer: Option<Point>,
    serial: u32,
)
    ensures
        ({
            let t = s.commit(surface, child, popup, layout_changed, pointer, serial);
            &&& surroundings_kept(s, t)
            &&& t.toplevels.remove(surface) == s.toplevels.remove(surface)
        }),
{
    let a = s.popup_commit(surface, popup);
    lemma_layer_commit_kept(a, surface, layout_changed);
    lemma_toplevel_commit_kept(a, surface, pointer, serial);
}

/// Placing and focusing windows, and the beginning and the end of a toplevel, leave the outputs, the
/// lock, the surface with the focus and the toplevel list alone.
pub proof fn law_windows_keep_surroundings(
    s: StateView,
    w: u64,
    pointer: Option<Point>,
    serial: u32,
)
    ensures
        surroundings_kept(s, s.new_toplevel(w)),
        surroundings_kept(s, s.toplevel_destroyed(w, serial)),
        surroundings_kept(s, s.promote_transient(w, pointer, serial)),
        surroundings_kept(s, s.focus_window(w, serial)),
        surroundings_kept(s, s.focus_topmost(serial)),
        surroundings_kept(s, s.center_child(w)),
        surroundings_kept(s, s.reflow_toplevels()),
        s.reflow_toplevels().toplevels == s.toplevels,
        s.reflow_toplevels().active_window == s.active_window,
        s.focus_window(w, serial).toplevels == s.toplevels,
        s.focus_topmost(serial).toplevels == s.toplevels,
        s.center_child(w).toplevels == s.toplevels,
        s.center_child(w).active_window == s.active_window,
{
    lemma_reflow_all_kept(s);
}

/// Requests leave the outputs, the lock, the surface with the focus and the toplevel list alone.
pub proof fn law_requests_keep_surroundings(
    s: StateView,
    w: u64,
    handle: WlrHandle,
    request: HandleRequest,
    age_secs: u64,
    serial: u32,
)
    ensures
        surroundings_kept(s, s.maximize_request(w)),
        surroundings_kept(s, s.unmaximize_request(w)),
        surroundings_kept(s, s.fullscreen_request(w, serial)),
        surroundings_kept(s, s.unfullscreen_request(w)),
        surroundings_kept(s, s.request_activation(age_secs, w, serial)),
        surroundings_kept(s, s.handle_request(handle, request, serial)),
        s.handle_request(handle, request, serial).toplevels == s.toplevels,
        s.request_activation(age_secs, w, serial).toplevels == s.toplevels,
{
}

proof fn lemma_clicked_kept(s: StateView, es: Seq<Element>)
    ensures
        surroundings_kept(s, s.deactivated(es)),
        surroundings_kept(s, s.flushed(es)),
        s.deactivated(es).toplevels == s.toplevels,
        s.flushed(es).toplevels == s.toplevels,
        s.deactivated(es).active_window == s.active_window,
        s.flushed(es).active_window == s.active_window,
        s.deactivated(es).layer_shell_on_demand_focus == s.layer_shell_on_demand_focus,
        s.flushed(es).layer_shell_on_demand_focus == s.layer_shell_on_demand_focus,
    decreases es.len(),
{
    if es.len() > 0 {
        lemma_clicked_kept(s, es.drop_last());
    }
}

/// Input leaves the outputs, the lock, the surface with the focus, the toplevel list, how toplevels
/// are treated, the active window and the layer that is owed the focus alone.
pub proof fn law_input_keeps_surroundings(s: StateView, event: InputEvent, serial: u32)
    ensures
        ({
            let t = s.process_input_event(event, serial);
            &&& surroundings_kept(s, t)
            &&& t.toplevels == s.toplevels
            &&& t.active_window == s.active_window
            &&& t.layer_shell_on_demand_focus == s.layer_shell_on_demand_focus
        }),
{
    if let InputEvent::PointerButton { probe, .. } = event {
        lemma_clicked_kept(s, s.elements);
        if let Some(window) = probe.window {
            let r = s.raise_window(window.window, true).set_keyboard_focus(
                Some(window.window),
                serial,
            );
            lemma_clicked_kept(r, r.elements);
        }
    }
}

} // verus!
