//! The stack and the configures keep step with what the display side is asked to do.

use vstd::prelude::*;
use crate::command::Command;
use crate::geometry::{Point, Rect};
use crate::handlers::compositor::PopupCommit;
use crate::handlers::foreign_toplevel::data::WlrHandle;
use crate::handlers::foreign_toplevel::manager::ForeignView;
use crate::handlers::foreign_toplevel::refresh::HandleRequest;
use crate::input::{InputEvent, Probe};
use crate::sequences::lemma_filtered;
use crate::space;
use crate::space::Element;
use crate::state::StateView;
use crate::toplevel::{PendingChange, Window, WindowMode, WindowState};

verus! {

/// The stack after `c`.
pub open spec fn play(es: Seq<Element>, c: Command) -> Seq<Element> {
    match c {
        Command::MapWindow { window, loc, .. } => space::mapped(es, window, loc),
        Command::MapBelow { window, loc, reference } => space::mapped_below(
            es,
            window,
            loc,
            reference,
        ),
        Command::UnmapWindow { window } => space::unmapped(es, window),
        Command::RaiseWindow { window, .. } => space::raised(es, window),
        Command::RaiseAbove { window, reference } => space::raised_above(es, window, reference),
        Command::RelocateWindow { window, loc } => space::relocated(es, window, loc),
        _ => es,
    }
}

/// The stack after the commands `cs`.
pub open spec fn played(es: Seq<Element>, cs: Seq<Command>) -> Seq<Element>
    decreases cs.len(),
{
    if cs.len() == 0 {
        es
    } else {
        play(played(es, cs.drop_last()), cs.last())
    }
}

/// Whether one of the commands sends `w` a configure.
pub open spec fn configures(cs: Seq<Command>, w: u64) -> bool {
    exists|k: int| 0 <= k < cs.len() && #[trigger] configuring(cs[k], w)
}

/// Whether `c` sends `w` a configure.
pub open spec fn configuring(c: Command, w: u64) -> bool {
    c == (Command::SendConfigure { window: w }) || c == (Command::SendPendingConfigure {
        window: w,
    })
}

/// Whether from `s` to `t` the stack changed just as the commands say that were added, and just the
/// windows count as configured that were or are sent a configure; nothing else that is known of the
/// client side of a window changed.
pub open spec fn in_step(s: StateView, t: StateView) -> bool {
    let new = t.commands.skip(s.commands.len() as int);
    &&& s.commands.is_prefix_of(t.commands)
    &&& t.elements == played(s.elements, new)
    &&& t.windows.dom() == s.windows.dom()
    &&& forall|w: u64|
        s.windows.contains_key(w) ==> #[trigger] t.windows[w] == (Window {
            initial_configure_sent: s.windows[w].initial_configure_sent || configures(new, w),
            ..s.windows[w]
        })
}

proof fn lemma_played_add(es: Seq<Element>, a: Seq<Command>, b: Seq<Command>)
    ensures
        played(es, a + b) == played(played(es, a), b),
    decreases b.len(),
{
    if b.len() == 0 {
        assert(a + b =~= a);
    } else {
        lemma_played_add(es, a, b.drop_last());
        assert((a + b).drop_last() =~= a + b.drop_last());
        assert((a + b).last() == b.last());
    }
}

proof fn lemma_configures_add(a: Seq<Command>, b: Seq<Command>, w: u64)
    ensures
        configures(a + b, w) <==> configures(a, w) || configures(b, w),
{
    let c = a + b;
    if configures(c, w) {
        let k = choose|k: int| 0 <= k < c.len() && #[trigger] configuring(c[k], w);
        if k < a.len() {
            assert(configuring(a[k], w));
        } else {
            assert(configuring(b[k - a.len()], w));
        }
    }
    if configures(a, w) {
        let k = choose|k: int| 0 <= k < a.len() && #[trigger] configuring(a[k], w);
        assert(configuring(c[k], w));
    }
    if configures(b, w) {
        let k = choose|k: int| 0 <= k < b.len() && #[trigger] configuring(b[k], w);
        assert(configuring(c[a.len() + k], w));
    }
}

/// Steps can be taken one after the other.
proof fn lemma_steps(a: StateView, b: StateView, c: StateView)
    requires
        in_step(a, b),
        in_step(b, c),
    ensures
        in_step(a, c),
{
    let n = a.commands.len() as int;
    let m = b.commands.len() as int;
    let x = b.commands.skip(n);
    let y = c.commands.skip(m);
    assert(a.commands =~= c.commands.take(n)) by {
        assert(b.commands.take(n) =~= a.commands);
    }
    assert(c.commands.skip(n) =~= x + y);
    lemma_played_add(a.elements, x, y);
    assert forall|w: u64| a.windows.contains_key(w) implies #[trigger] c.windows[w] == (Window {
        initial_configure_sent: a.windows[w].initial_configure_sent || configures(
            c.commands.skip(n),
            w,
        ),
        ..a.windows[w]
    }) by {
        lemma_configures_add(x, y, w);
        assert(b.windows.contains_key(w));
        assert(b.windows[w] == (Window {
            initial_configure_sent: a.windows[w].initial_configure_sent || configures(x, w),
            ..a.windows[w]
        }));
    }
}

/// Standing still is a step, and so is any change of what neither the stack nor the windows are.
proof fn lemma_still(s: StateView, t: StateView)
    requires
        t.commands == s.commands,
        t.elements == s.elements,
        t.windows == s.windows,
    ensures
        in_step(s, t),
{
    let new = t.commands.skip(s.commands.len() as int);
    assert(new =~= Seq::empty());
    assert(s.commands =~= s.commands.take(s.commands.len() as int));
}

/// One more command, with the stack played on.
proof fn lemma_one(s: StateView, t: StateView, c: Command)
    requires
        t.commands == s.commands.push(c),
        t.elements == play(s.elements, c),
        t.windows == s.windows,
        !(c is SendConfigure),
        !(c is SendPendingConfigure),
    ensures
        in_step(s, t),
{
    let n = s.commands.len() as int;
    let new = t.commands.skip(n);
    assert(new =~= seq![c]);
    assert(s.commands =~= t.commands.take(n));
    assert(new.drop_last() =~= Seq::empty());
    reveal_with_fuel(played, 2);
    assert forall|w: u64| !#[trigger] configures(new, w) by {
        assert(forall|k: int| 0 <= k < new.len() ==> new[k] == c);
    }
    assert forall|w: u64| s.windows.contains_key(w) implies #[trigger] t.windows[w] == (Window {
        initial_configure_sent: s.windows[w].initial_configure_sent || configures(new, w),
        ..s.windows[w]
    }) by {
        assert(!configures(new, w));
    }
}

/// Sending a window a configure.
proof fn lemma_sends(s: StateView, w: u64)
    requires
        s.windows.contains_key(w),
    ensures
        in_step(s, s.send_configure(w)),
        in_step(s, s.send_pending_configure(w)),
{
    lemma_sent(s, s.send_configure(w), Command::SendConfigure { window: w }, w);
    lemma_sent(s, s.send_pending_configure(w), Command::SendPendingConfigure { window: w }, w);
}

proof fn lemma_sent(s: StateView, t: StateView, c: Command, w: u64)
    requires
        s.windows.contains_key(w),
        t == s.emit(c).configured(w),
        c == (Command::SendConfigure { window: w }) || c == (Command::SendPendingConfigure {
            window: w,
        }),
    ensures
        in_step(s, t),
{
    let n = s.commands.len() as int;
    let new = t.commands.skip(n);
    assert(new =~= seq![c]);
    assert(s.commands =~= t.commands.take(n));
    assert(new.drop_last() =~= Seq::empty());
    reveal_with_fuel(played, 2);
    assert(configuring(new[0], w));
    assert forall|v: u64| v != w implies !#[trigger] configures(new, v) by {
        assert(forall|k: int| 0 <= k < new.len() ==> new[k] == c);
    }
    assert(t.windows.dom() =~= s.windows.dom());
    assert forall|v: u64| s.windows.contains_key(v) implies #[trigger] t.windows[v] == (Window {
        initial_configure_sent: s.windows[v].initial_configure_sent || configures(new, v),
        ..s.windows[v]
    }) by {
        assert(configures(new, v) <==> v == w);
    }
}

/// Telling windows that were configured before what is pending.
proof fn lemma_flushes(s: StateView, cs: Seq<Command>)
    requires
        forall|k: int|
            0 <= k < cs.len() ==> (#[trigger] cs[k] is SendPendingConfigure)
                && s.windows[cs[k]->SendPendingConfigure_window].initial_configure_sent,
    ensures
        in_step(s, s.emit_all(cs)),
    decreases cs.len(),
{
    let t = s.emit_all(cs);
    let n = s.commands.len() as int;
    let new = t.commands.skip(n);
    assert(new =~= cs);
    assert(s.commands =~= t.commands.take(n));
    lemma_neutral(s.elements, cs);
    assert forall|w: u64| s.windows.contains_key(w) implies #[trigger] t.windows[w] == (Window {
        initial_configure_sent: s.windows[w].initial_configure_sent || configures(new, w),
        ..s.windows[w]
    }) by {
        if configures(new, w) {
            let k = choose|k: int| 0 <= k < new.len() && #[trigger] configuring(new[k], w);
            assert(cs[k] is SendPendingConfigure);
            assert(s.windows[w].initial_configure_sent);
        }
    }
}

proof fn lemma_neutral(es: Seq<Element>, cs: Seq<Command>)
    requires
        forall|k: int| 0 <= k < cs.len() ==> (#[trigger] cs[k] is SendPendingConfigure),
    ensures
        played(es, cs) == es,
    decreases cs.len(),
{
    if cs.len() > 0 {
        let rest = cs.drop_last();
        assert(forall|k: int| 0 <= k < rest.len() ==> #[trigger] rest[k] == cs[k]);
        lemma_neutral(es, rest);
        assert(cs[cs.len() - 1] is SendPendingConfigure);
    }
}

proof fn lemma_center_step(s: StateView, w: u64)
    ensures
        in_step(s, s.center_child(w)),
{
    if s.has_stacked_parent(w) {
        let p = s.windows[w].parent->0;
        let loc = s.element_geometry(p).child_spec(s.windows[w].geometry.size);
        let a = s.relocate_window(w, loc);
        lemma_one(s, a, Command::RelocateWindow { window: w, loc });
        lemma_one(a, a.raise_above(w, p), Command::RaiseAbove { window: w, reference: p });
        lemma_steps(s, a, a.raise_above(w, p));
    } else {
        lemma_still(s, s);
    }
}

proof fn lemma_focus_step(s: StateView, w: u64, serial: u32)
    ensures
        in_step(s, s.focus_window(w, serial)),
{
    if s.focus_refused(w) {
        lemma_still(s, s);
    } else {
        let a = s.raise_window(w, true);
        let cs = a.pending_configures();
        let b = a.emit_all(cs);
        let c = b.set_keyboard_focus(Some(w), serial);
        lemma_one(s, a, Command::RaiseWindow { window: w, activate: true });
        let pred = |e: Element| a.windows[e.window].initial_configure_sent;
        lemma_filtered(a.elements, pred);
        assert forall|k: int| 0 <= k < cs.len() implies (#[trigger] cs[k] is SendPendingConfigure)
            && a.windows[cs[k]->SendPendingConfigure_window].initial_configure_sent by {
            assert(pred(a.elements.filter(pred)[k]));
        }
        lemma_flushes(a, cs);
        lemma_steps(s, a, b);
        lemma_one(b, c, Command::SetKeyboardFocus { focus: Some(w), serial });
        lemma_steps(s, b, c);
        lemma_still(c, s.focus_window(w, serial));
        lemma_steps(s, c, s.focus_window(w, serial));
    }
}

proof fn lemma_topmost_step(s: StateView, serial: u32)
    ensures
        in_step(s, s.focus_topmost(serial)),
{
    if s.elements.len() > 0 {
        lemma_focus_step(s, s.elements.last().window, serial);
    } else {
        let c = s.set_keyboard_focus(None, serial);
        lemma_one(s, c, Command::SetKeyboardFocus { focus: None, serial });
        lemma_still(c, s.focus_topmost(serial));
        lemma_steps(s, c, s.focus_topmost(serial));
    }
}

proof fn lemma_reflow_step(s: StateView, ws: Seq<u64>, zone: Rect)
    requires
        forall|i: int| 0 <= i < ws.len() ==> s.windows.contains_key(#[trigger] ws[i]),
    ensures
        in_step(s, s.reflow_windows(ws, zone)),
    decreases ws.len(),
{
    if ws.len() > 0 {
        let rest = ws.drop_last();
        let w = ws.last();
        assert(forall|i: int| 0 <= i < rest.len() ==> #[trigger] rest[i] == ws[i]);
        lemma_reflow_step(s, rest, zone);
        let a = s.reflow_windows(rest, zone);
        let b = a.reflow_window(w, zone);
        assert(s.windows.contains_key(ws[ws.len() - 1]));
        assert(a.windows.dom().contains(w));
        if a.windows[w].parent is Some {
            lemma_center_step(a, w);
        } else if a.windows[w].max_size.fills_spec(zone.size) {
            let change = PendingChange::sized(zone.size);
            let c = a.set_pending(w, change);
            lemma_one(a, c, Command::SetPending { window: w, change });
            let d = if c.windows[w].initial_configure_sent {
                c.send_pending_configure(w)
            } else {
                c
            };
            lemma_sends(c, w);
            lemma_still(c, c);
            lemma_steps(a, c, d);
            lemma_one(d, b, Command::RelocateWindow { window: w, loc: zone.loc });
            lemma_steps(a, d, b);
        } else {
            let loc = zone.centered_spec(a.windows[w].geometry);
            lemma_one(a, b, Command::RelocateWindow { window: w, loc });
        }
        lemma_steps(s, a, b);
    } else {
        lemma_still(s, s);
    }
}

proof fn lemma_reflow_all_step(s: StateView)
    requires
        s.wf(),
    ensures
        in_step(s, s.reflow_toplevels()),
{
    if s.outputs.len() > 0 {
        let ws = space::windows_of(s.elements);
        assert forall|i: int| 0 <= i < ws.len() implies s.windows.contains_key(#[trigger] ws[i]) by {
            assert(s.elements[i].window == ws[i]);
            assert(space::stacked(s.elements, ws[i]));
        }
        lemma_reflow_step(s, ws, s.outputs[0].zone);
    } else {
        lemma_still(s, s);
    }
}

proof fn lemma_pending_step(s: StateView, w: u64, change: PendingChange)
    ensures
        in_step(s, s.set_pending(w, change)),
{
    lemma_one(s, s.set_pending(w, change), Command::SetPending { window: w, change });
}

proof fn lemma_transient_step(s: StateView, w: u64, pointer: Option<Point>)
    requires
        s.windows.contains_key(w),
    ensures
        in_step(s, s.map_transient(w, pointer)),
{
    let change = PendingChange::float();
    let a = s.set_pending(w, change);
    let b = a.send_configure(w);
    let c = s.map_transient(w, pointer);
    lemma_pending_step(s, w, change);
    lemma_sends(a, w);
    lemma_steps(s, a, b);
    lemma_still(b, c);
    lemma_steps(s, b, c);
}

proof fn lemma_map_step(s: StateView, w: u64, serial: u32)
    requires
        s.windows.contains_key(w),
    ensures
        in_step(s, s.map_toplevel(w, serial)),
{
    let p = s.propose_mapping(w);
    let treated = s.set_window_state(w, s.mapped_state(w));
    lemma_still(s, treated);
    if s.windows[w].parent is None && s.outputs.len() > 0 {
        let change = PendingChange::for_zone(
            s.starts_maximized(w),
            s.outputs[0].zone.size,
        );
        lemma_pending_step(treated, w, change);
        lemma_steps(s, treated, p);
    }
    let loc = s.mapped_loc(w);
    let m = p.map_below_fullscreen(w, loc);
    match p.active_fullscreen_window() {
        Some(front) => {
            lemma_one(p, m, Command::MapBelow { window: w, loc, reference: front });
        },
        None => {
            lemma_one(p, m, Command::MapWindow { window: w, loc, activate: true });
        },
    }
    lemma_steps(s, p, m);
    let f = m.focus_window(w, serial);
    lemma_focus_step(m, w, serial);
    lemma_steps(s, m, f);
    let g = f.set_window_state(
        w,
        WindowState { mapped: true, ..f.toplevels[w] },
    );
    lemma_still(f, g);
    lemma_steps(s, f, g);
    assert(g.windows.dom().contains(w));
    lemma_sends(g, w);
    let h = g.send_configure(w);
    lemma_steps(s, g, h);
    lemma_center_step(h, w);
    lemma_steps(s, h, h.center_child(w));
}

proof fn lemma_first_step(s: StateView, w: u64, pointer: Option<Point>, serial: u32)
    requires
        s.windows.contains_key(w),
    ensures
        in_step(s, s.first_commit(w, pointer, serial)),
{
    if s.is_anonymous(w) {
        lemma_transient_step(s, w, pointer);
    } else {
        lemma_map_step(s, w, serial);
    }
}

proof fn lemma_recheck_step(s: StateView, w: u64)
    requires
        s.windows.contains_key(w),
    ensures
        in_step(s, s.recheck_maximize(w)),
{
    if s.maximize_outdated(w) {
        let zone = s.zone()->0;
        let fills = s.windows[w].max_size.fills_spec(zone.size);
        let mode = if fills {
            WindowMode::Maximized
        } else {
            WindowMode::Floating
        };
        let change = PendingChange::for_zone(fills, zone.size);
        let a = s.set_mode(w, mode);
        lemma_still(s, a);
        let b = a.set_pending(w, change);
        lemma_pending_step(a, w, change);
        lemma_steps(s, a, b);
        let c = b.send_pending_configure(w);
        lemma_sends(b, w);
        lemma_steps(s, b, c);
        if !fills {
            let loc = zone.centered_spec(s.windows[w].geometry);
            let d = c.relocate_window(w, loc);
            lemma_one(c, d, Command::RelocateWindow { window: w, loc });
            lemma_steps(s, c, d);
        }
    } else {
        lemma_still(s, s);
    }
}

proof fn lemma_toplevel_commit_step(s: StateView, w: u64, pointer: Option<Point>, serial: u32)
    requires
        s.wf(),
    ensures
        in_step(s, s.toplevel_commit(w, pointer, serial)),
{
    reveal(StateView::toplevel_commit);
    if s.toplevels.contains_key(w) {
        let a = s.commit_mapping(w, pointer, serial);
        if !s.toplevels[w].mapped {
            lemma_first_step(s, w, pointer, serial);
        } else {
            lemma_still(s, a);
        }
        if !s.commit_keeps_transient(w) {
            assert(a.windows.dom().contains(w));
            lemma_recheck_step(a, w);
            let b = a.recheck_maximize(w);
            lemma_steps(s, a, b);
            lemma_center_step(b, w);
            lemma_steps(s, b, b.center_child(w));
        }
    } else {
        lemma_still(s, s);
    }
}

proof fn lemma_layer_commit_step(s: StateView, surface: u64, layout_changed: bool)
    requires
        s.wf(),
    ensures
        in_step(s, s.layer_commit(surface, layout_changed)),
{
    reveal(StateView::layer_commit);
    let t = s.layer_commit(surface, layout_changed);
    if s.is_layer(surface) {
        let a = if !s.layer(surface).initial_configure_sent {
            s.emit(Command::SendLayerConfigure { surface })
        } else {
            s
        };
        lemma_still(s, s);
        if !s.layer(surface).initial_configure_sent {
            lemma_one(s, a, Command::SendLayerConfigure { surface });
        }
        let b = if layout_changed {
            a.reflow_toplevels()
        } else {
            a
        };
        lemma_still(a, a);
        assert(a.wf());
        lemma_reflow_all_step(a);
        lemma_steps(s, a, b);
        lemma_still(b, t);
        lemma_steps(s, b, t);
    } else {
        lemma_still(s, s);
    }
}

/// Commits keep the stack and the configures in step with what is asked for.
pub proof fn law_commits_keep_step(
    s: StateView,
    surface: u64,
    child: Option<u64>,
    popup: Option<PopupCommit>,
    layout_changed: bool,
    pointer: Option<Point>,
    serial: u32,
)
    requires
        s.wf(),
    ensures
        in_step(s, s.commit(surface, child, popup, layout_changed, pointer, serial)),
        in_step(s, s.toplevel_commit(surface, pointer, serial)),
        in_step(s, s.layer_commit(surface, layout_changed)),
{
    let a = s.popup_commit(surface, popup);
    lemma_still(s, s);
    if a != s {
        lemma_one(s, a, Command::SendPopupConfigure { popup: surface });
    }
    assert(a.wf());
    let b = a.role_commit(surface, layout_changed, pointer, serial);
    lemma_layer_commit_step(a, surface, layout_changed);
    lemma_toplevel_commit_step(a, surface, pointer, serial);
    lemma_steps(s, a, b);
    if let Some(w) = child {
        lemma_center_step(b, w);
        lemma_steps(s, b, b.center_child(w));
    }
    lemma_layer_commit_step(s, surface, layout_changed);
    lemma_toplevel_commit_step(s, surface, pointer, serial);
}

/// Placing windows, focusing them and the end of a toplevel keep the stack and the configures in step
/// with what is asked for.
pub proof fn law_windows_keep_step(s: StateView, w: u64, pointer: Option<Point>, serial: u32)
    requires
        s.wf(),
    ensures
        in_step(s, s.new_toplevel(w)),
        in_step(s, s.center_child(w)),
        in_step(s, s.focus_window(w, serial)),
        in_step(s, s.focus_topmost(serial)),
        in_step(s, s.reflow_toplevels()),
        in_step(s, s.toplevel_destroyed(w, serial)),
        in_step(s, s.promote_transient(w, pointer, serial)),
{
    lemma_still(s, s);
    lemma_center_step(s, w);
    lemma_focus_step(s, w, serial);
    lemma_topmost_step(s, serial);
    lemma_reflow_all_step(s);
    if s.outputs.len() > 0 {
        let change = PendingChange::bounded(s.outputs[0].zone.size);
        let a = s.set_pending(w, change);
        lemma_pending_step(s, w, change);
        lemma_still(a, s.new_toplevel(w));
        lemma_steps(s, a, s.new_toplevel(w));
    } else {
        lemma_still(s, s.new_toplevel(w));
    }
    let gone = StateView { toplevels: s.toplevels.remove(w), ..s };
    lemma_still(s, gone);
    if !s.is_transient(w) && space::stacked(s.elements, w) {
        let u = gone.unmap_window(w);
        lemma_one(gone, u, Command::UnmapWindow { window: w });
        lemma_steps(s, gone, u);
        lemma_topmost_step(u, serial);
        lemma_steps(s, u, u.focus_topmost(serial));
    }
    if s.is_transient(w) {
        lemma_first_step(s, w, pointer, serial);
    }
}

/// Requests of clients keep the stack and the configures in step with what is asked for.
pub proof fn law_requests_keep_step(
    s: StateView,
    w: u64,
    handle: WlrHandle,
    request: HandleRequest,
    age_secs: u64,
    serial: u32,
)
    requires
        s.wf(),
        s.windows.contains_key(w),
    ensures
        in_step(s, s.maximize_request(w)),
        in_step(s, s.unmaximize_request(w)),
        in_step(s, s.fullscreen_request(w, serial)),
        in_step(s, s.unfullscreen_request(w)),
        in_step(s, s.request_activation(age_secs, w, serial)),
        in_step(s, s.handle_request(handle, request, serial)),
{
    lemma_still(s, s);
    lemma_focus_step(s, w, serial);
    lemma_sends(s, w);
    if !s.maximize_ignored(w) && s.outputs.len() > 0 {
        let change = PendingChange::maximize(s.outputs[0].zone.size);
        lemma_asked(s, w, change, WindowMode::Maximized);
    }
    if !s.unmaximize_ignored(w) && s.outputs.len() > 0 {
        let change = PendingChange::maximize(s.outputs[0].zone.size);
        let a = s.set_pending(w, change);
        lemma_pending_step(s, w, change);
        lemma_sends(a, w);
        lemma_steps(s, a, a.send_configure(w));
    }
    if s.in_mode(w, WindowMode::Fullscreen) && s.outputs.len() > 0 {
        let zone = s.outputs[0].zone;
        lemma_asked(
            s,
            w,
            PendingChange::restore_maximized(zone.size),
            WindowMode::Maximized,
        );
        lemma_asked(
            s,
            w,
            PendingChange::float_within(zone.size),
            WindowMode::Floating,
        );
    }
    if !s.fullscreen_ignored(w) {
        let b = match s.output_geometry() {
            Some(geo) => {
                let change = PendingChange::fullscreen(geo.size);
                lemma_asked(s, w, change, WindowMode::Fullscreen);
                s.set_pending(w, change).set_mode(
                    w,
                    WindowMode::Fullscreen,
                ).send_configure(w)
            },
            None => s.send_configure(w),
        };
        if b.toplevels.contains_key(w) {
            let c = b.raise_window(w, false);
            lemma_one(b, c, Command::RaiseWindow { window: w, activate: false });
            lemma_steps(s, b, c);
            lemma_focus_step(c, w, serial);
            lemma_steps(s, c, c.focus_window(w, serial));
        }
    }
    if let Some(surface) = ForeignView::handle_owner(
        s.foreign.toplevels,
        handle,
    ) {
        lemma_focus_step(s, surface, serial);
        lemma_one(
            s,
            s.emit(Command::SendClose { window: surface }),
            Command::SendClose { window: surface },
        );
    }
}

proof fn lemma_asked(
    s: StateView,
    w: u64,
    change: PendingChange,
    mode: WindowMode,
)
    requires
        s.windows.contains_key(w),
    ensures
        in_step(s, s.set_pending(w, change).set_mode(w, mode).send_configure(w)),
{
    let a = s.set_pending(w, change);
    let b = a.set_mode(w, mode);
    lemma_pending_step(s, w, change);
    lemma_still(a, b);
    lemma_steps(s, a, b);
    lemma_sends(b, w);
    lemma_steps(s, b, b.send_configure(w));
}

proof fn lemma_deactivated_step(s: StateView, es: Seq<Element>)
    requires
        forall|i: int| 0 <= i < es.len() ==> s.windows.contains_key((#[trigger] es[i]).window),
    ensures
        in_step(s, s.deactivated(es)),
        in_step(s, s.flushed(es)),
    decreases es.len(),
{
    if es.len() > 0 {
        let rest = es.drop_last();
        let w = es.last().window;
        assert(forall|i: int| 0 <= i < rest.len() ==> #[trigger] rest[i] == es[i]);
        assert(s.windows.contains_key(es[es.len() - 1].window));
        lemma_deactivated_step(s, rest);
        let a = s.deactivated(rest);
        let c = Command::SetActivated { window: w, active: false };
        assert(a.windows.dom().contains(w));
        lemma_one(a, a.emit(c), c);
        lemma_sends(a.emit(c), w);
        lemma_steps(s, a, a.emit(c));
        lemma_steps(s, a.emit(c), a.emit(c).send_pending_configure(w));
        let b = s.flushed(rest);
        assert(b.windows.dom().contains(w));
        lemma_sends(b, w);
        lemma_steps(s, b, b.send_pending_configure(w));
    } else {
        lemma_still(s, s);
    }
}

proof fn lemma_clicked_step(s: StateView, probe: Probe, serial: u32)
    requires
        s.wf(),
    ensures
        in_step(s, s.clicked(probe, serial)),
{
    lemma_still(s, s);
    assert forall|i: int| 0 <= i < s.elements.len() implies s.windows.contains_key(
        (#[trigger] s.elements[i]).window,
    ) by {
        assert(space::stacked(s.elements, s.elements[i].window));
    }
    lemma_deactivated_step(s, s.elements);
    let d = s.deactivated(s.elements);
    assert forall|focus: Option<u64>| in_step(s, #[trigger] d.set_keyboard_focus(focus, serial)) by {
        lemma_one(
            d,
            d.set_keyboard_focus(focus, serial),
            Command::SetKeyboardFocus { focus, serial },
        );
        lemma_steps(s, d, d.set_keyboard_focus(focus, serial));
    }
    assert forall|focus: Option<u64>| in_step(s, #[trigger] s.set_keyboard_focus(focus, serial)) by {
        lemma_one(
            s,
            s.set_keyboard_focus(focus, serial),
            Command::SetKeyboardFocus { focus, serial },
        );
    }
    if let Some(window) = probe.window {
        let w = window.window;
        let a = s.raise_window(w, true);
        let b = a.set_keyboard_focus(Some(w), serial);
        lemma_one(s, a, Command::RaiseWindow { window: w, activate: true });
        lemma_one(a, b, Command::SetKeyboardFocus { focus: Some(w), serial });
        lemma_steps(s, a, b);
        space::lemma_moves(s.elements, w, Point { x: 0, y: 0 });
        assert forall|i: int| 0 <= i < b.elements.len() implies b.windows.contains_key(
            (#[trigger] b.elements[i]).window,
        ) by {
            assert(space::stacked(b.elements, b.elements[i].window));
            assert(space::stacked(s.elements, b.elements[i].window));
        }
        lemma_deactivated_step(b, b.elements);
        lemma_steps(s, b, b.flushed(b.elements));
    }
}

/// Input keeps the stack and the configures in step with what is asked for.
pub proof fn law_input_keeps_step(s: StateView, event: InputEvent, serial: u32)
    requires
        s.wf(),
    ensures
        in_step(s, s.process_input_event(event, serial)),
{
    lemma_still(s, s);
    match event {
        InputEvent::Keyboard { key, pressed, time } => {
            let c = Command::KeyboardInput { key, pressed, serial, time };
            lemma_one(s, s.emit(c), c);
        },
        InputEvent::PointerMotionAbsolute { probe, time } => {
            let c = Command::PointerMotion { under: s.surface_under(probe), serial, time };
            lemma_framed(s, s, c);
        },
        InputEvent::PointerButton { probe, grabbed, button, pressed, time } => {
            let c = Command::PointerButton { button, pressed, serial, time };
            lemma_clicked_step(s, probe, serial);
            if pressed && !grabbed {
                lemma_framed(s, s.clicked(probe, serial), c);
            } else {
                lemma_framed(s, s, c);
            }
        },
        InputEvent::PointerAxis { horizontal, vertical, source, time } => {
            let c = Command::PointerAxis {
                source,
                horizontal: horizontal.step_spec(source),
                vertical: vertical.step_spec(source),
                time,
            };
            lemma_framed(s, s, c);
        },
        _ => {},
    }
}

proof fn lemma_framed(s: StateView, a: StateView, c: Command)
    requires
        in_step(s, a),
        c is PointerMotion || c is PointerButton || c is PointerAxis,
    ensures
        in_step(s, a.emit(c).emit(Command::PointerFrame)),
{
    let b = a.emit(c);
    lemma_one(a, b, c);
    lemma_steps(s, a, b);
    lemma_one(b, b.emit(Command::PointerFrame), Command::PointerFrame);
    lemma_steps(s, b, b.emit(Command::PointerFrame));
}

} // verus!
