//! What holds of the windows as a whole.

use vstd::prelude::*;
use crate::command::Command;
use crate::geometry::{Point, Rect};
use crate::handlers::foreign_toplevel::data::WlrHandle;
use crate::handlers::foreign_toplevel::manager::ForeignView;
use crate::handlers::foreign_toplevel::refresh::HandleRequest;
use crate::space::{lemma_level, lemma_moves, lemma_raised_above, Element};
use crate::space;
use crate::state::{lemma_topmost_fullscreen, topmost_fullscreen, StateView};
use crate::toplevel::{PendingChange, WindowKind, WindowMode, WindowState};

verus! {

/// While a window is fullscreen, clients cannot move the focus to another one: focusing it, handing
/// in an activation token for it, and activating it through the toplevel list change nothing. (A
/// click of the user does move the focus.)
pub proof fn law_fullscreen_keeps_focus(
    s: StateView,
    w: u64,
    age_secs: u64,
    handle: WlrHandle,
    serial: u32,
)
    requires
        s.active_fullscreen_window() matches Some(f) && f != w,
    ensures
        s.focus_window(w, serial) == s,
        s.request_activation(age_secs, w, serial) == s,
        ForeignView::handle_owner(s.foreign.toplevels, handle) == Some(w) ==> s.handle_request(
            handle,
            HandleRequest::Activate,
            serial,
        ) == s,
{
}

/// A window that gets the focus goes to the top and is remembered as the active one; the order of
/// the others stays, and no layer is owed the focus any more.
pub proof fn law_focus_goes_to_top(s: StateView, w: u64, serial: u32)
    requires
        s.wf(),
        space::stacked(s.elements, w),
        !s.focus_refused(w),
    ensures
        s.focus_window(w, serial).elements.last().window == w,
        space::unmapped(s.focus_window(w, serial).elements, w) == space::unmapped(s.elements, w),
        s.focus_window(w, serial).active_window == Some(w),
        s.focus_window(w, serial).layer_shell_on_demand_focus is None,
        s.focus_window(w, serial).commands.last() == (Command::SetKeyboardFocus {
            focus: Some(w),
            serial,
        }),
{
    lemma_raised_on_top(s.elements, w);
}

/// A raised window is on top, and the others are as they were.
pub(crate) proof fn lemma_raised_on_top(es: Seq<Element>, w: u64)
    requires
        space::distinct(es),
        space::stacked(es, w),
    ensures
        space::raised(es, w).len() == es.len(),
        space::raised(es, w).last() == (Element { window: w, loc: space::loc_of(es, w) }),
        space::unmapped(space::raised(es, w), w) == space::unmapped(es, w),
{
    let r = space::raised(es, w);
    lemma_moves(es, w, space::loc_of(es, w));
    lemma_level(r, r.len() - 1);
    assert(space::unmapped(r, w) =~= space::unmapped(es, w));
}

/// A window whose fullscreen request is granted becomes the topmost window, the fullscreen one that
/// keeps the focus, and the active one.
pub proof fn law_fullscreen_takes_over(s: StateView, w: u64, serial: u32)
    requires
        s.wf(),
        s.toplevels.contains_key(w),
        space::stacked(s.elements, w),
        s.output_geometry() is Some,
        !s.fullscreen_ignored(w),
    ensures
        s.fullscreen_request(w, serial).in_mode(w, WindowMode::Fullscreen),
        s.fullscreen_request(w, serial).elements.last().window == w,
        s.fullscreen_request(w, serial).active_fullscreen_window() == Some(w),
        s.fullscreen_request(w, serial).active_window == Some(w),
{
    let geo = s.output_geometry()->0;
    let t = s.set_pending(w, PendingChange::fullscreen(geo.size)).set_mode(
        w,
        WindowMode::Fullscreen,
    ).send_configure(w);
    lemma_raised_on_top(t.elements, w);
    lemma_moves(t.elements, w, Point { x: 0, y: 0 });
    let u = t.raise_window(w, false);
    assert(u.active_fullscreen_window() == Some(w));
    assert(space::stacked(u.elements, w));
    lemma_raised_on_top(u.elements, w);
}

/// A fullscreen window that asks to leave that mode is maximized afterwards, or floats if it is one
/// that is never maximized. A maximized window that asks to leave its mode stays in it, since
/// windows do not float at their own request.
pub proof fn law_windows_return_to_maximized(s: StateView, w: u64)
    requires
        s.zone() is Some,
    ensures
        s.in_mode(w, WindowMode::Fullscreen) ==> s.unfullscreen_request(w).in_mode(
            w,
            if s.may_fill(w, s.zone()->0) {
                WindowMode::Maximized
            } else {
                WindowMode::Floating
            },
        ),
        s.unmaximize_request(w).toplevels == s.toplevels,
{
}

/// Requests that ask for what is the case already, or for the end of what is not the case, change
/// nothing; a fullscreen window keeps its mode when it asks to be maximized.
pub proof fn law_spurious_requests_do_nothing(s: StateView, w: u64, serial: u32)
    ensures
        !s.in_mode(w, WindowMode::Maximized) ==> s.unmaximize_request(w) == s,
        !s.in_mode(w, WindowMode::Fullscreen) ==> s.unfullscreen_request(w) == s,
        s.in_mode(w, WindowMode::Fullscreen) ==> s.maximize_request(w) == s,
        s.in_mode(w, WindowMode::Fullscreen) ==> s.fullscreen_request(w, serial) == s,
{
}

/// Dialogs are never maximized and never fullscreen at their request, they start out floating, and a
/// fullscreen window that has become a dialog floats when it leaves that mode.
pub proof fn law_dialogs_float(s: StateView, w: u64, serial: u32)
    requires
        s.windows[w].parent is Some,
    ensures
        s.maximize_request(w) == s,
        s.unmaximize_request(w) == s,
        s.fullscreen_request(w, serial) == s,
        s.recheck_maximize(w) == s,
        s.mapped_state(w).kind == WindowKind::Dialog,
        s.mapped_state(w).mode == WindowMode::Floating,
        s.in_mode(w, WindowMode::Fullscreen) && s.zone() is Some ==> s.unfullscreen_request(
            w,
        ).in_mode(w, WindowMode::Floating),
{
}

/// A window whose maximum size is smaller than the zone is never maximized: not when it is mapped,
/// not at its request, not when its size hints are looked at again, and not when it leaves
/// fullscreen. Then it is told that it is neither fullscreen nor maximized and picks its size.
pub proof fn law_fixed_size_windows_float(s: StateView, w: u64)
    requires
        s.toplevels.contains_key(w),
        s.too_small_for(w, s.zone()),
    ensures
        s.mapped_state(w).mode == WindowMode::Floating,
        s.maximize_request(w) == s,
        s.maximize_outdated(w) ==> s.recheck_maximize(w).in_mode(w, WindowMode::Floating),
        s.in_mode(w, WindowMode::Fullscreen) ==> {
            &&& s.unfullscreen_request(w).in_mode(w, WindowMode::Floating)
            &&& s.unfullscreen_request(w).commands[s.commands.len() as int]
                == (Command::SetPending {
                window: w,
                change: PendingChange::float_within(s.zone()->0.size),
            })
            &&& PendingChange::float_within(s.zone()->0.size).maximized == Some(false)
            &&& PendingChange::float_within(s.zone()->0.size).fullscreen == Some(false)
        },
{
}

/// A fixed-size window that cannot fill the output is never fullscreen at its request.
pub proof fn law_fixed_size_windows_are_not_fullscreen(s: StateView, w: u64, serial: u32)
    requires
        s.too_small_for(w, s.output_geometry()),
    ensures
        s.fullscreen_request(w, serial) == s,
{
}

/// A window without parent, title and application id, a tooltip, floats from its first commit on,
/// whatever it asked for before. The commit puts nothing in the stack and gives no one the focus; the
/// end of the tooltip takes neither from anyone.
pub proof fn law_transients_stay_out(
    s: StateView,
    w: u64,
    pointer: Option<Point>,
    serial: u32,
)
    requires
        s.toplevels.contains_key(w),
        s.is_anonymous(w),
    ensures
        s.first_commit(w, pointer, serial).is_transient(w),
        s.first_commit(w, pointer, serial).in_mode(w, WindowMode::Floating),
        s.first_commit(w, pointer, serial).elements == s.elements,
        s.first_commit(w, pointer, serial).active_window == s.active_window,
        forall|i: int|
            s.commands.len() <= i < s.first_commit(w, pointer, serial).commands.len() ==> !(
            #[trigger] s.first_commit(w, pointer, serial).commands[i] is SetKeyboardFocus),
        s.first_commit(w, pointer, serial).toplevel_destroyed(w, serial).elements == s.elements,
        s.first_commit(w, pointer, serial).toplevel_destroyed(w, serial).commands
            == s.first_commit(w, pointer, serial).commands,
{
}

/// A transient keeps its mode and gets no focus: its requests to be maximized or fullscreen, an
/// activation token for it and its activation through the toplevel list change nothing, and a
/// commit does no more than keep it on the output.
pub proof fn law_transients_keep_to_themselves(
    s: StateView,
    w: u64,
    age_secs: u64,
    handle: WlrHandle,
    pointer: Option<Point>,
    serial: u32,
)
    requires
        s.is_transient(w),
        s.toplevels[w].mapped,
        !space::stacked(s.elements, w),
    ensures
        s.maximize_request(w) == s,
        s.unmaximize_request(w) == s,
        s.fullscreen_request(w, serial) == s,
        s.recheck_maximize(w) == s,
        s.request_activation(age_secs, w, serial) == s,
        s.foreign_activate(w, serial) == s,
        ForeignView::handle_owner(s.foreign.toplevels, handle) == Some(w) ==> s.handle_request(
            handle,
            HandleRequest::Activate,
            serial,
        ) == s,
        s.toplevel_commit(w, pointer, serial).toplevels[w].mode == s.toplevels[w].mode,
        s.toplevel_commit(w, pointer, serial).active_window == s.active_window,
        s.windows[w].parent is None ==> s.toplevel_commit(w, pointer, serial)
            == s.keep_transient_inside(w),
        s.keep_transient_inside(w).commands == s.commands,
        !s.unfullscreen_request(w).in_mode(w, WindowMode::Maximized) || s.in_mode(
            w,
            WindowMode::Maximized,
        ),
{
    reveal(StateView::toplevel_commit);
    let t = s.keep_transient_inside(w);
    assert(t.is_transient(w));
    assert(t.recheck_maximize(w) == t);
}

/// A transient that has room on the output lies on it after its commit, and one that lies on it
/// stays where it is.
pub proof fn law_transients_stay_on_output(s: StateView, w: u64)
    requires
        s.toplevels.contains_key(w),
        s.transient_area(w) is Some,
        s.transient_fits(w),
    ensures
        s.output_geometry()->0.encloses(
            s.keep_transient_inside(w).toplevels[w].kind->Transient_0,
            s.windows[w].geometry.size,
        ),
        s.output_geometry()->0.encloses(
            s.toplevels[w].kind->Transient_0,
            s.windows[w].geometry.size,
        ) ==> s.keep_transient_inside(w).toplevels[w] == s.toplevels[w],
{
}

/// A new window that opens while another is fullscreen is stacked directly below it, is not
/// activated and leaves the focus there. A dialog goes above its parent all the same.
pub proof fn law_new_window_opens_behind_fullscreen(s: StateView, w: u64, serial: u32)
    requires
        s.wf(),
        s.toplevels.contains_key(w),
        !space::stacked(s.elements, w),
        s.active_fullscreen_window() is Some,
    ensures
        ({
            let front = s.active_fullscreen_window()->0;
            let t = s.stack_toplevel(w, serial);
            &&& space::unmapped(t.elements, w) == s.elements
            &&& space::level(t.elements, w) + 1 == space::level(t.elements, front)
            &&& t.active_window == s.active_window
            &&& t.commands.contains(
                Command::MapBelow { window: w, loc: s.mapped_loc(w), reference: front },
            )
            &&& s.map_toplevel(w, serial).active_window == s.active_window
            &&& s.map_toplevel(w, serial).active_fullscreen_window() == Some(front)
            &&& !t.has_stacked_parent(w) ==> s.map_toplevel(w, serial) == t
        }),
{
    let front = s.active_fullscreen_window()->0;
    let loc = s.mapped_loc(w);
    let s1 = s.propose_mapping(w);
    let s2 = s1.map_below(w, loc, front);
    let t = s.stack_toplevel(w, serial);
    lemma_topmost_fullscreen(s.elements, s.toplevels);
    assert(s1.toplevels.remove(w) =~= s.toplevels.remove(w));
    lemma_same_fullscreen(s.elements, s.toplevels, s1.toplevels, w);
    assert(s1.active_fullscreen_window() == Some(front));
    space::lemma_mapped_below(s.elements, w, loc, front);
    lemma_topmost_without(s2.elements, s2.toplevels, w);
    assert(s2.active_fullscreen_window() == Some(front));
    assert(front != w);
    assert(s2.focus_window(w, serial) == s2);
    assert(t.elements == s2.elements);
    let map = Command::MapBelow { window: w, loc, reference: front };
    let at = s2.commands.len() - 1;
    assert(s2.commands[at] == map);
    assert(t.commands[at] == map);
    lemma_topmost_without(t.elements, t.toplevels, w);
    assert(t.toplevels.remove(w) =~= s.toplevels.remove(w));
    lemma_same_fullscreen(s.elements, s.toplevels, t.toplevels, w);
    if t.has_stacked_parent(w) {
        let p = t.windows[w].parent->0;
        let at = t.element_geometry(p).child_spec(t.windows[w].geometry.size);
        lemma_moves(t.elements, w, at);
        let a = space::relocated(t.elements, w, at);
        lemma_relocated(t.elements, w, at);
        assert(space::unmapped(a, w) =~= space::unmapped(t.elements, w));
        let b = space::raised_above(a, w, p);
        lemma_raised_above(a, w, p);
        if space::level(a, w) < space::level(a, p) {
            let j = space::level(a, p);
            assert(b[j].window == w);
            lemma_level(b, j);
            assert(b.remove(j) =~= a.remove(space::level(a, w)));
        }
        assert(space::unmapped(b, w) =~= space::unmapped(t.elements, w));
        lemma_topmost_without(b, t.toplevels, w);
    }
}

/// A window that is not fullscreen makes no difference to which window is the topmost fullscreen
/// one.
pub(crate) proof fn lemma_topmost_without(es: Seq<Element>, toplevels: Map<u64, WindowState>, w: u64)
    requires
        space::distinct(es),
        !(toplevels.contains_key(w) && toplevels[w].mode == WindowMode::Fullscreen),
    ensures
        topmost_fullscreen(es, toplevels) == topmost_fullscreen(
            space::unmapped(es, w),
            toplevels,
        ),
    decreases es.len(),
{
    if space::stacked(es, w) {
        let n = es.len() as int;
        let l = space::level(es, w);
        let rest = es.drop_last();
        assert(es[l].window == w);
        assert(es[n - 1] == es.last());
        assert(forall|i: int| 0 <= i < rest.len() ==> #[trigger] rest[i] == es[i]);
        if l == n - 1 {
            assert(space::unmapped(es, w) =~= rest);
        } else {
            assert(space::distinct(rest));
            assert(rest[l].window == w);
            lemma_level(rest, l);
            lemma_topmost_without(rest, toplevels, w);
            assert(space::unmapped(es, w).drop_last() =~= space::unmapped(rest, w));
            assert(space::unmapped(es, w).last() == es.last());
        }
    }
}

/// Which stacked window is fullscreen does not depend on how a window outside the stack is treated.
pub(crate) proof fn lemma_same_fullscreen(
    es: Seq<Element>,
    a: Map<u64, WindowState>,
    b: Map<u64, WindowState>,
    w: u64,
)
    requires
        !space::stacked(es, w),
        b.remove(w) == a.remove(w),
    ensures
        topmost_fullscreen(es, a) == topmost_fullscreen(es, b),
    decreases es.len(),
{
    if es.len() > 0 {
        let rest = es.drop_last();
        assert(es[es.len() - 1] == es.last());
        assert(es.last().window != w);
        assert(!space::stacked(rest, w)) by {
            if space::stacked(rest, w) {
                let i = space::level(rest, w);
                assert(es[i].window == w);
            }
        }
        lemma_same_fullscreen(rest, a, b, w);
        let v = es.last().window;
        assert(a.contains_key(v) <==> a.remove(w).contains_key(v));
        assert(b.contains_key(v) <==> b.remove(w).contains_key(v));
        assert(a.contains_key(v) ==> a[v] == a.remove(w)[v]);
        assert(b.contains_key(v) ==> b[v] == b.remove(w)[v]);
    }
}

/// A dialog that is centered lies over the middle of its parent and above it; the parent stays where
/// it is, and centering the dialog again moves nothing.
pub proof fn law_dialog_centered_above_parent(s: StateView, w: u64)
    requires
        s.wf(),
        space::stacked(s.elements, w),
        s.has_stacked_parent(w),
        s.windows[w].parent != Some(w),
    ensures
        space::level(s.center_child(w).elements, s.windows[w].parent->0) < space::level(
            s.center_child(w).elements,
            w,
        ),
        space::loc_of(s.center_child(w).elements, w) == s.element_geometry(
            s.windows[w].parent->0,
        ).child_spec(s.windows[w].geometry.size),
        s.center_child(w).element_geometry(s.windows[w].parent->0) == s.element_geometry(
            s.windows[w].parent->0,
        ),
        s.center_child(w).center_child(w).elements == s.center_child(w).elements,
{
    let p = s.windows[w].parent->0;
    let loc = s.element_geometry(p).child_spec(s.windows[w].geometry.size);
    let a = space::relocated(s.elements, w, loc);
    let b = space::raised_above(a, w, p);
    lemma_relocated(s.elements, w, loc);
    lemma_raised_above(a, w, p);
    let t = s.center_child(w);
    assert(t.elements == b);
    assert(t.element_geometry(p) == s.element_geometry(p));
    lemma_relocated(b, w, loc);
    let c = space::relocated(b, w, loc);
    assert(c =~= b) by {
        let i = space::level(b, w);
        assert(b[i].window == w && b[i].loc == loc);
    }
}

/// Every commit of a mapped dialog leaves it over the middle of its parent and above it.
pub proof fn law_commits_keep_dialogs_centered(
    s: StateView,
    w: u64,
    pointer: Option<Point>,
    serial: u32,
)
    requires
        s.wf(),
        s.toplevels.contains_key(w),
        s.toplevels[w].mapped,
        space::stacked(s.elements, w),
        s.has_stacked_parent(w),
        s.windows[w].parent != Some(w),
    ensures
        space::level(
            s.toplevel_commit(w, pointer, serial).elements,
            s.windows[w].parent->0,
        ) < space::level(s.toplevel_commit(w, pointer, serial).elements, w),
        space::loc_of(s.toplevel_commit(w, pointer, serial).elements, w) == s.element_geometry(
            s.windows[w].parent->0,
        ).child_spec(s.windows[w].geometry.size),
{
    reveal(StateView::toplevel_commit);
    law_dialog_centered_above_parent(s, w);
    let t = s.commit_mapping(w, pointer, serial);
    assert(t.elements == s.elements && t.windows == s.windows);
    assert(t.recheck_maximize(w) == t);
    assert(t.center_child(w).elements == s.center_child(w).elements);
}

/// Moving a window in place changes no other window and no order.
pub(crate) proof fn lemma_relocated(es: Seq<Element>, w: u64, loc: Point)
    requires
        space::distinct(es),
        space::stacked(es, w),
    ensures
        space::distinct(space::relocated(es, w, loc)),
        space::loc_of(space::relocated(es, w, loc), w) == loc,
        forall|v: u64|
            #[trigger] space::stacked(space::relocated(es, w, loc), v) <==> space::stacked(es, v),
        forall|v: u64|
            space::stacked(es, v) ==> #[trigger] space::level(space::relocated(es, w, loc), v)
                == space::level(es, v),
        forall|v: u64|
            space::stacked(es, v) && v != w ==> #[trigger] space::loc_of(
                space::relocated(es, w, loc),
                v,
            ) == space::loc_of(es, v),
{
    let r = space::relocated(es, w, loc);
    lemma_moves(es, w, loc);
    assert forall|v: u64| space::stacked(es, v) implies #[trigger] space::level(r, v)
        == space::level(es, v) by {
        let i = space::level(es, v);
        assert(r[i].window == v);
        lemma_level(r, i);
    }
    assert(space::level(r, w) == space::level(es, w));
    assert forall|v: u64| space::stacked(es, v) && v != w implies #[trigger] space::loc_of(r, v)
        == space::loc_of(es, v) by {
        assert(space::level(r, v) == space::level(es, v));
        assert(space::level(es, v) != space::level(es, w));
    }
}

/// Raising a window above another keeps the order of the others.
proof fn lemma_raised_above_order(es: Seq<Element>, w: u64, reference: u64, u: u64, v: u64)
    requires
        space::distinct(es),
        space::stacked(es, u),
        space::stacked(es, v),
        u != w,
        v != w,
        space::level(es, u) < space::level(es, v),
    ensures
        space::level(space::raised_above(es, w, reference), u) < space::level(
            space::raised_above(es, w, reference),
            v,
        ),
{
    let r = space::raised_above(es, w, reference);
    lemma_raised_above(es, w, reference);
    if space::stacked(es, w) && space::stacked(es, reference) && space::level(es, w)
        < space::level(es, reference) {
        let a = space::level(es, w);
        let b = space::level(es, reference);
        let i = space::level(es, u);
        let j = space::level(es, v);
        assert(i != a && j != a);
        let x = if a < i <= b {
            i - 1
        } else {
            i
        };
        let y = if a < j <= b {
            j - 1
        } else {
            j
        };
        assert(r[x].window == u);
        assert(r[y].window == v);
        lemma_level(r, x);
        lemma_level(r, y);
    }
}

/// What a step of placing the windows anew leaves as it is.
pub(crate) proof fn lemma_reflow_window(s: StateView, w: u64, zone: Rect)
    requires
        s.wf(),
        space::stacked(s.elements, w),
    ensures
        s.reflow_window(w, zone).wf(),
        forall|v: u64|
            #[trigger] space::stacked(s.reflow_window(w, zone).elements, v) <==> space::stacked(
                s.elements,
                v,
            ),
        forall|v: u64|
            space::stacked(s.elements, v) && v != w ==> #[trigger] space::loc_of(
                s.reflow_window(w, zone).elements,
                v,
            ) == space::loc_of(s.elements, v),
        s.windows[w].parent is None ==> space::loc_of(s.reflow_window(w, zone).elements, w)
            == s.zone_loc(w, zone),
        s.has_stacked_parent(w) && s.windows[w].parent != Some(w) ==> {
            &&& space::loc_of(s.reflow_window(w, zone).elements, w) == s.element_geometry(
                s.windows[w].parent->0,
            ).child_spec(s.windows[w].geometry.size)
            &&& space::level(s.reflow_window(w, zone).elements, s.windows[w].parent->0)
                < space::level(s.reflow_window(w, zone).elements, w)
        },
        s.windows.dom() == s.reflow_window(w, zone).windows.dom(),
        forall|v: u64|
            #![trigger s.reflow_window(w, zone).windows[v]]
            s.windows.contains_key(v) ==> {
                &&& s.reflow_window(w, zone).windows[v].parent == s.windows[v].parent
                &&& s.reflow_window(w, zone).windows[v].geometry == s.windows[v].geometry
                &&& s.reflow_window(w, zone).windows[v].max_size == s.windows[v].max_size
            },
{
    let t = s.reflow_window(w, zone);
    if s.windows[w].parent is Some {
        if s.has_stacked_parent(w) {
            let p = s.windows[w].parent->0;
            let loc = s.element_geometry(p).child_spec(s.windows[w].geometry.size);
            lemma_relocated(s.elements, w, loc);
            let a = space::relocated(s.elements, w, loc);
            lemma_raised_above(a, w, p);
            if p != w {
                law_dialog_centered_above_parent(s, w);
            }
        }
    } else {
        lemma_relocated(s.elements, w, s.zone_loc(w, zone));
    }
    assert(t.windows.dom() =~= s.windows.dom());
}

/// Placing a window anew keeps the order of the others; a parentless one keeps its place in the
/// order too.
pub(crate) proof fn lemma_reflow_window_order(s: StateView, w: u64, zone: Rect, u: u64, v: u64)
    requires
        s.wf(),
        space::stacked(s.elements, w),
        space::stacked(s.elements, u),
        space::stacked(s.elements, v),
        space::level(s.elements, u) < space::level(s.elements, v),
        s.windows[w].parent is None || (u != w && v != w),
    ensures
        space::level(s.reflow_window(w, zone).elements, u) < space::level(
            s.reflow_window(w, zone).elements,
            v,
        ),
{
    if s.windows[w].parent is Some {
        if s.has_stacked_parent(w) {
            let p = s.windows[w].parent->0;
            let loc = s.element_geometry(p).child_spec(s.windows[w].geometry.size);
            lemma_relocated(s.elements, w, loc);
            lemma_raised_above_order(space::relocated(s.elements, w, loc), w, p, u, v);
        }
    } else {
        lemma_relocated(s.elements, w, s.zone_loc(w, zone));
    }
}

/// What is settled once the first `k` windows have been placed anew.
pub(crate) proof fn lemma_reflow_prefix(s: StateView, zone: Rect, k: int)
    requires
        s.wf(),
        0 <= k <= s.elements.len(),
    ensures
        ({
            let ws = space::windows_of(s.elements);
            let r = s.reflow_windows(ws.take(k), zone);
            &&& r.wf()
            &&& r.windows.dom() == s.windows.dom()
            &&& forall|v: u64|
                #![trigger r.windows[v]]
                s.windows.contains_key(v) ==> {
                    &&& r.windows[v].parent == s.windows[v].parent
                    &&& r.windows[v].geometry == s.windows[v].geometry
                    &&& r.windows[v].max_size == s.windows[v].max_size
                }
            &&& forall|v: u64|
                #[trigger] space::stacked(r.elements, v) <==> space::stacked(s.elements, v)
            &&& forall|i: int|
                0 <= i < k && s.windows[ws[i]].parent is None ==> #[trigger] space::loc_of(
                    r.elements,
                    ws[i],
                ) == s.zone_loc(ws[i], zone)
            &&& forall|i: int, j: int|
                #![trigger ws[i], ws[j]]
                0 <= i < ws.len() && 0 <= j < k && s.windows[ws[j]].parent == Some(ws[i])
                    && s.windows[ws[i]].parent is None ==> {
                    &&& space::level(r.elements, ws[i]) < space::level(r.elements, ws[j])
                    &&& i < j ==> space::loc_of(r.elements, ws[j]) == (Rect {
                        loc: s.zone_loc(ws[i], zone),
                        size: s.windows[ws[i]].geometry.size,
                    }).child_spec(s.windows[ws[j]].geometry.size)
                }
        }),
    decreases k,
{
    let ws = space::windows_of(s.elements);
    if k == 0 {
        assert(ws.take(0) =~= Seq::empty());
    } else {
        lemma_reflow_prefix(s, zone, k - 1);
        let q = s.reflow_windows(ws.take(k - 1), zone);
        let r = s.reflow_windows(ws.take(k), zone);
        let w = ws[k - 1];
        assert(ws.take(k).drop_last() =~= ws.take(k - 1));
        assert(ws.take(k).last() == w);
        assert(r == q.reflow_window(w, zone));
        lemma_level(s.elements, k - 1);
        assert(space::stacked(s.elements, w));
        assert(space::stacked(q.elements, w));
        assert(s.windows.contains_key(w));
        assert(q.windows[w].parent == s.windows[w].parent);
        lemma_reflow_window(q, w, zone);
        assert forall|i: int|
            0 <= i < k && s.windows[ws[i]].parent is None implies #[trigger] space::loc_of(
            r.elements,
            ws[i],
        ) == s.zone_loc(ws[i], zone) by {
            lemma_level(s.elements, i);
            assert(s.windows.contains_key(ws[i]));
            assert(q.windows[ws[i]].geometry == s.windows[ws[i]].geometry);
            if i < k - 1 {
                assert(ws[i] != w) by {
                    assert(s.elements[i].window != s.elements[k - 1].window);
                }
                assert(space::stacked(q.elements, ws[i]));
                assert(space::loc_of(q.elements, ws[i]) == s.zone_loc(ws[i], zone));
            }
        }
        assert forall|i: int, j: int|
            #![trigger ws[i], ws[j]]
            0 <= i < ws.len() && 0 <= j < k && s.windows[ws[j]].parent == Some(ws[i])
                && s.windows[ws[i]].parent is None implies {
            &&& space::level(r.elements, ws[i]) < space::level(r.elements, ws[j])
            &&& i < j ==> space::loc_of(r.elements, ws[j]) == (Rect {
                loc: s.zone_loc(ws[i], zone),
                size: s.windows[ws[i]].geometry.size,
            }).child_spec(s.windows[ws[j]].geometry.size)
        } by {
            let p = ws[i];
            let c = ws[j];
            lemma_level(s.elements, i);
            lemma_level(s.elements, j);
            assert(space::stacked(q.elements, p));
            assert(space::stacked(q.elements, c));
            assert(q.windows[p].geometry == s.windows[p].geometry);
            assert(q.windows[c].geometry == s.windows[c].geometry);
            assert(p != c);
            if j == k - 1 {
                assert(q.has_stacked_parent(w));
                if i < j {
                    assert(space::loc_of(q.elements, ws[i]) == s.zone_loc(ws[i], zone));
                }
            } else {
                assert(c != w) by {
                    assert(s.elements[j].window != s.elements[k - 1].window);
                }
                lemma_reflow_window_order(q, w, zone, p, c);
            }
        }
    }
}

/// After the windows have been placed anew, every parentless window is at the corner of the zone or
/// in its middle, and every dialog of one is above it; a dialog that was above it before is over its
/// middle.
pub proof fn law_reflow_places_windows(s: StateView, p: u64, c: u64)
    requires
        s.wf(),
        s.zone() is Some,
        space::stacked(s.elements, p),
        s.windows[p].parent is None,
    ensures
        space::loc_of(s.reflow_toplevels().elements, p) == s.zone_loc(p, s.zone()->0),
        space::stacked(s.elements, c) && s.windows[c].parent == Some(p) ==> {
            &&& space::level(s.reflow_toplevels().elements, p) < space::level(
                s.reflow_toplevels().elements,
                c,
            )
            &&& space::level(s.elements, p) < space::level(s.elements, c) ==> space::loc_of(
                s.reflow_toplevels().elements,
                c,
            ) == s.reflow_toplevels().element_geometry(p).child_spec(s.windows[c].geometry.size)
        },
{
    let zone = s.zone()->0;
    let ws = space::windows_of(s.elements);
    let n = s.elements.len() as int;
    lemma_reflow_prefix(s, zone, n);
    assert(ws.take(n) =~= ws);
    let i = space::level(s.elements, p);
    assert(ws[i] == p);
    let r = s.reflow_toplevels();
    assert(space::loc_of(r.elements, ws[i]) == s.zone_loc(ws[i], zone));
    if space::stacked(s.elements, c) && s.windows[c].parent == Some(p) {
        let j = space::level(s.elements, c);
        assert(ws[j] == c);
        assert(r.windows[p].geometry == s.windows[p].geometry);
    }
}

/// Placing the windows anew adds none to the stack and takes none from it.
pub proof fn law_reflow_keeps_windows(s: StateView, w: u64)
    requires
        s.wf(),
    ensures
        space::stacked(s.reflow_toplevels().elements, w) <==> space::stacked(s.elements, w),
{
    if let Some(zone) = s.zone() {
        let ws = space::windows_of(s.elements);
        let n = s.elements.len() as int;
        lemma_reflow_prefix(s, zone, n);
        assert(ws.take(n) =~= ws);
    }
}

/// When a stacked window goes, it leaves the stack, the order of the others stays but for the one
/// that gets the focus, and unless a fullscreen window is in the way that is the topmost one left.
pub proof fn law_focus_returns_to_topmost(s: StateView, w: u64, serial: u32)
    requires
        s.wf(),
        !s.is_transient(w),
        space::stacked(s.elements, w),
    ensures
        !space::stacked(s.toplevel_destroyed(w, serial).elements, w),
        s.elements.len() == 1 ==> s.toplevel_destroyed(w, serial).active_window is None,
        s.elements.len() > 1 ==> {
            let left = StateView {
                toplevels: s.toplevels.remove(w),
                ..s
            }.unmap_window(w);
            let top = left.elements.last().window;
            !left.focus_refused(top) ==> {
                &&& s.toplevel_destroyed(w, serial).active_window == Some(top)
                &&& s.toplevel_destroyed(w, serial).elements == left.elements
            }
        },
{
    let left = StateView { toplevels: s.toplevels.remove(w), ..s }.unmap_window(w);
    lemma_moves(s.elements, w, Point { x: 0, y: 0 });
    assert(!space::stacked(left.elements, w));
    if left.elements.len() > 0 {
        let top = left.elements.last().window;
        let n = left.elements.len() as int;
        lemma_level(left.elements, n - 1);
        lemma_moves(left.elements, top, Point { x: 0, y: 0 });
        lemma_raised_on_top(left.elements, top);
        assert(space::raised(left.elements, top) =~= left.elements);
    }
}

/// An activation token that is older than its lifetime has no effect.
pub proof fn law_stale_token_does_nothing(s: StateView, age_secs: u64, surface: u64, serial: u32)
    requires
        age_secs >= crate::handlers::xdg_activation::TOKEN_LIFETIME_SECS,
    ensures
        s.request_activation(age_secs, surface, serial) == s,
        s.plain_request_activation(age_secs, surface, serial) == s,
{
}

impl StateView {
    /// Whether every stacked toplevel has been mapped and is no transient.
    pub open spec fn transients_apart(self) -> bool {
        forall|w: u64|
            #![trigger space::stacked(self.elements, w)]
            space::stacked(self.elements, w) && self.toplevels.contains_key(w)
                ==> self.toplevels[w].mapped && !(self.toplevels[w].kind is Transient)
    }
}

/// Where no window joins the stack and none is treated differently but for its mode, transients stay
/// apart.
proof fn lemma_apart_kept(s: StateView, t: StateView)
    requires
        s.transients_apart(),
        forall|w: u64|
            #[trigger] space::stacked(t.elements, w) ==> space::stacked(s.elements, w),
        forall|w: u64|
            #[trigger] t.toplevels.contains_key(w) ==> {
                &&& s.toplevels.contains_key(w)
                &&& t.toplevels[w].mapped == s.toplevels[w].mapped
                &&& (t.toplevels[w].kind is Transient) == (s.toplevels[w].kind is Transient)
            },
    ensures
        t.transients_apart(),
{
    assert forall|w: u64|
        #![trigger space::stacked(t.elements, w)]
        space::stacked(t.elements, w) && t.toplevels.contains_key(w) implies t.toplevels[w].mapped
        && !(t.toplevels[w].kind is Transient) by {
        assert(space::stacked(s.elements, w));
    }
}

proof fn lemma_apart_focused(s: StateView, w: u64, serial: u32)
    requires
        s.wf(),
        s.transients_apart(),
    ensures
        s.focus_window(w, serial).transients_apart(),
        s.focus_window(w, serial).toplevels == s.toplevels,
        s.focus_window(w, serial).windows == s.windows,
        forall|v: u64|
            #[trigger] space::stacked(s.focus_window(w, serial).elements, v) <==> space::stacked(
                s.elements,
                v,
            ),
{
    lemma_moves(s.elements, w, Point { x: 0, y: 0 });
    lemma_apart_kept(s, s.focus_window(w, serial));
}

proof fn lemma_apart_centered(s: StateView, w: u64)
    requires
        space::distinct(s.elements),
        s.transients_apart(),
    ensures
        s.center_child(w).transients_apart(),
{
    if s.has_stacked_parent(w) {
        let p = s.windows[w].parent->0;
        let loc = s.element_geometry(p).child_spec(s.windows[w].geometry.size);
        let a = s.relocate_window(w, loc);
        lemma_moves(s.elements, w, loc);
        lemma_raised_above(a.elements, w, p);
        lemma_apart_kept(s, s.center_child(w));
    }
}

/// Stacking a window makes it a mapped one that is no transient.
proof fn lemma_apart_stacked(s: StateView, w: u64, serial: u32)
    requires
        s.wf(),
        s.transients_apart(),
        s.toplevels.contains_key(w),
    ensures
        space::distinct(s.stack_toplevel(w, serial).elements),
        s.stack_toplevel(w, serial).transients_apart(),
{
    let s2 = s.propose_mapping(w);
    let s3 = s2.map_below_fullscreen(w, s.mapped_loc(w));
    lemma_moves(s2.elements, w, s.mapped_loc(w));
    if let Some(front) = s2.active_fullscreen_window() {
        space::lemma_mapped_below(s2.elements, w, s.mapped_loc(w), front);
    }
    assert(forall|v: u64| #[trigger]
        space::stacked(s3.elements, v) <==> space::stacked(s2.elements, v) || v == w);
    lemma_moves(s3.elements, w, Point { x: 0, y: 0 });
    let s4 = s3.focus_window(w, serial);
    let t = s.stack_toplevel(w, serial);
    assert(t.elements == s4.elements);
    assert(t.toplevels == s4.toplevels.insert(
        w,
        WindowState { mapped: true, ..s4.toplevels[w] },
    ));
    assert forall|v: u64|
        #![trigger space::stacked(t.elements, v)]
        space::stacked(t.elements, v) && t.toplevels.contains_key(v) implies t.toplevels[v].mapped
        && !(t.toplevels[v].kind is Transient) by {
        if v != w {
            assert(space::stacked(s3.elements, v));
            assert(space::stacked(s.elements, v));
            assert(t.toplevels[v] == s.toplevels[v]);
        }
    }
}

proof fn lemma_apart_first_commit(
    s: StateView,
    w: u64,
    pointer: Option<Point>,
    serial: u32,
)
    requires
        s.wf(),
        s.transients_apart(),
        s.toplevels.contains_key(w),
        !space::stacked(s.elements, w),
    ensures
        s.first_commit(w, pointer, serial).transients_apart(),
        space::distinct(s.first_commit(w, pointer, serial).elements),
{
    if s.is_anonymous(w) {
        let t = s.map_transient(w, pointer);
        assert forall|v: u64|
            #![trigger space::stacked(t.elements, v)]
            space::stacked(t.elements, v) && t.toplevels.contains_key(
                v,
            ) implies t.toplevels[v].mapped && !(t.toplevels[v].kind is Transient) by {
            assert(space::stacked(s.elements, v));
            assert(v != w);
        }
    } else {
        lemma_apart_stacked(s, w, serial);
        let u = s.stack_toplevel(w, serial);
        lemma_apart_centered(u, w);
        if u.has_stacked_parent(w) {
            let p = u.windows[w].parent->0;
            let loc = u.element_geometry(p).child_spec(u.windows[w].geometry.size);
            lemma_moves(u.elements, w, loc);
            lemma_raised_above(u.relocate_window(w, loc).elements, w, p);
        }
    }
}

/// Transients never join the stack: what is stacked has been mapped and is no transient, and the
/// life of a toplevel keeps that, from its creation over its commits and the changes of its title,
/// application id and parent to its end.
pub proof fn law_transients_never_stacked(
    s: StateView,
    w: u64,
    pointer: Option<Point>,
    serial: u32,
)
    requires
        s.wf(),
        s.transients_apart(),
    ensures
        !space::stacked(s.elements, w) ==> s.new_toplevel(w).transients_apart(),
        s.promote_transient(w, pointer, serial).transients_apart(),
        s.toplevel_commit(w, pointer, serial).transients_apart(),
        s.toplevel_destroyed(w, serial).transients_apart(),
{
    if !space::stacked(s.elements, w) {
        let t = s.new_toplevel(w);
        assert forall|v: u64|
            #![trigger space::stacked(t.elements, v)]
            space::stacked(t.elements, v) && t.toplevels.contains_key(
                v,
            ) implies t.toplevels[v].mapped && !(t.toplevels[v].kind is Transient) by {
            assert(space::stacked(s.elements, v));
            assert(v != w);
        }
    }
    if s.is_transient(w) {
        lemma_apart_first_commit(s, w, pointer, serial);
    }
    lemma_apart_commit(s, w, pointer, serial);
    let left = StateView { toplevels: s.toplevels.remove(w), ..s };
    lemma_apart_kept(s, left);
    if !s.is_transient(w) && space::stacked(s.elements, w) {
        lemma_moves(s.elements, w, Point { x: 0, y: 0 });
        let u = left.unmap_window(w);
        lemma_apart_kept(left, u);
        assert(u.wf());
        if u.elements.len() > 0 {
            lemma_apart_focused(u, u.elements.last().window, serial);
        } else {
            lemma_apart_kept(u, u.focus_topmost(serial));
        }
    }
}

proof fn lemma_apart_commit(s: StateView, w: u64, pointer: Option<Point>, serial: u32)
    requires
        s.wf(),
        s.transients_apart(),
    ensures
        s.toplevel_commit(w, pointer, serial).transients_apart(),
{
    reveal(StateView::toplevel_commit);
    if s.toplevels.contains_key(w) {
        let t = s.commit_mapping(w, pointer, serial);
        if s.toplevels[w].mapped {
            lemma_apart_kept(s, t);
        } else {
            lemma_apart_first_commit(s, w, pointer, serial);
        }
        if !s.commit_keeps_transient(w) {
            let r = t.recheck_maximize(w);
            let loc = t.zone()->0.centered_spec(t.windows[w].geometry);
            lemma_moves(t.elements, w, loc);
            assert(t.toplevels.contains_key(w));
            lemma_apart_kept(t, r);
            lemma_apart_centered(r, w);
        }
    }
}

/// Requests, clicks, activations and new layouts keep transients out of the stack too.
pub proof fn law_requests_leave_transients_apart(
    s: StateView,
    w: u64,
    age_secs: u64,
    probe: crate::input::Probe,
    serial: u32,
)
    requires
        s.wf(),
        s.transients_apart(),
        s.toplevels.contains_key(w),
    ensures
        s.maximize_request(w).transients_apart(),
        s.unmaximize_request(w).transients_apart(),
        s.fullscreen_request(w, serial).transients_apart(),
        s.unfullscreen_request(w).transients_apart(),
        s.focus_window(w, serial).transients_apart(),
        s.request_activation(age_secs, w, serial).transients_apart(),
        s.foreign_activate(w, serial).transients_apart(),
        s.clicked(probe, serial).transients_apart(),
        s.reflow_toplevels().transients_apart(),
{
    lemma_apart_focused(s, w, serial);
    lemma_apart_kept(s, s.maximize_request(w));
    lemma_apart_kept(s, s.unmaximize_request(w));
    lemma_apart_kept(s, s.unfullscreen_request(w));
    if !s.fullscreen_ignored(w) {
        let a = (match s.output_geometry() {
            Some(geo) => s.set_pending(
                w,
                PendingChange::fullscreen(geo.size),
            ).set_mode(w, WindowMode::Fullscreen),
            None => s,
        }).send_configure(w);
        lemma_apart_kept(s, a);
        let b = a.raise_window(w, false);
        lemma_moves(a.elements, w, Point { x: 0, y: 0 });
        lemma_apart_kept(a, b);
        lemma_apart_raised(b, w, serial);
    }
    lemma_apart_clicked(s, probe, serial);
    if let Some(zone) = s.zone() {
        let ws = space::windows_of(s.elements);
        let n = s.elements.len() as int;
        lemma_reflow_prefix(s, zone, n);
        assert(ws.take(n) =~= ws);
        lemma_reflow_treats_alike(s, ws, zone);
        lemma_apart_kept(s, s.reflow_toplevels());
    }
}

/// Focusing a window keeps transients apart, whatever is known of the windows.
proof fn lemma_apart_raised(s: StateView, w: u64, serial: u32)
    requires
        space::distinct(s.elements),
        s.transients_apart(),
    ensures
        s.focus_window(w, serial).transients_apart(),
{
    lemma_moves(s.elements, w, Point { x: 0, y: 0 });
    lemma_apart_kept(s, s.focus_window(w, serial));
}

proof fn lemma_reflow_treats_alike(s: StateView, ws: Seq<u64>, zone: Rect)
    ensures
        s.reflow_windows(ws, zone).toplevels == s.toplevels,
    decreases ws.len(),
{
    if ws.len() > 0 {
        lemma_reflow_treats_alike(s, ws.drop_last(), zone);
    }
}

proof fn lemma_apart_clicked(s: StateView, probe: crate::input::Probe, serial: u32)
    requires
        s.wf(),
        s.transients_apart(),
    ensures
        s.clicked(probe, serial).transients_apart(),
{
    lemma_deactivated_alike(s, s.elements);
    if let Some(window) = probe.window {
        let w = window.window;
        let t = s.raise_window(w, true).set_keyboard_focus(Some(w), serial);
        lemma_moves(s.elements, w, Point { x: 0, y: 0 });
        lemma_flushed_alike(t, t.elements);
    }
    lemma_apart_kept(s, s.clicked(probe, serial));
}

proof fn lemma_deactivated_alike(s: StateView, es: Seq<Element>)
    ensures
        s.deactivated(es).toplevels == s.toplevels,
        s.deactivated(es).elements == s.elements,
    decreases es.len(),
{
    if es.len() > 0 {
        lemma_deactivated_alike(s, es.drop_last());
    }
}

proof fn lemma_flushed_alike(s: StateView, es: Seq<Element>)
    ensures
        s.flushed(es).toplevels == s.toplevels,
        s.flushed(es).elements == s.elements,
    decreases es.len(),
{
    if es.len() > 0 {
        lemma_flushed_alike(s, es.drop_last());
    }
}

} // verus!
