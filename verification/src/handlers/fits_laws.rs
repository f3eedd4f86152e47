//! When a reaction may be asked for.

use vstd::prelude::*;
use crate::arrangement;
use crate::arrangement::{lemma_lies, lemma_others};
use crate::geometry::{Point, Rect, Size};
use crate::geometry_laws;
use crate::geometry_laws::{law_centering, law_filling, law_placing_children};
use crate::handlers::compositor::PopupCommit;
use crate::handlers::surface_laws;
use crate::handlers::xdg_shell::mapping_laws;
use crate::handlers::xdg_shell::mode_laws;
use crate::handlers::xdg_shell::placement_laws;
use crate::input::{InputEvent, LayerProbe, Probe};
use crate::input_laws;
use crate::space;
use crate::state::StateView;
use crate::toplevel::{Window, WindowMode};

verus! {

/// Whether a window of extent `inner` can be centered in `area` within the coordinate range.
pub open spec fn centers_in(inner: Size, area: Rect) -> bool {
    geometry_laws::comparable(area.size, inner) && placement_laws::center_in_range(inner, area)
}

/// Whether a child of extent `child` can be put over `parent` within the coordinate range.
pub open spec fn goes_over(child: Size, parent: Rect) -> bool {
    geometry_laws::comparable(parent.size, child) && placement_laws::middle_in_range(child, parent)
}

/// A dialog can be centered unless the place over the middle of its parent is out of range; one
/// without a parent in the stack always can.
pub proof fn law_dialogs_can_be_centered(s: StateView, w: u64, p: u64, at: Point)
    requires
        s.wf(),
    ensures
        s.windows[w].parent is None ==> s.child_fits(w),
        s.windows[w].parent == Some(p) && !arrangement::present(s.elements, p) ==> s.child_fits(w),
        s.windows[w].parent == Some(p) && arrangement::lies_at(s.elements, p, at) ==> (
        s.child_fits(w) <==> goes_over(
            s.windows[w].geometry.size,
            Rect { loc: at, size: s.windows[p].geometry.size },
        )),
{
    lemma_lies(s.elements);
    law_placing_children(
        Rect { loc: at, size: s.windows[p].geometry.size },
        s.windows[w].geometry.size,
    );
    assert(arrangement::present(s.elements, p) <==> space::stacked(s.elements, p));
}

/// Without dialogs, the windows can be placed anew just if every one that cannot fill the zone can be
/// centered in it. Without an output, they always can.
pub proof fn law_windows_can_be_placed(s: StateView)
    requires
        forall|i: int|
            0 <= i < s.elements.len() ==> s.windows[(#[trigger] s.elements[i]).window].parent
                is None,
    ensures
        s.outputs.len() == 0 ==> s.reflow_fits(),
        s.outputs.len() > 0 ==> (s.reflow_fits() <==> forall|i: int|
            0 <= i < s.elements.len() ==> {
                let win = s.windows[(#[trigger] s.elements[i]).window];
                arrangement::can_fill(win.max_size, s.outputs[0].zone.size) || centers_in(
                    win.geometry.size,
                    s.outputs[0].zone,
                )
            }),
{
    if s.outputs.len() > 0 {
        let ws = space::windows_of(s.elements);
        lemma_placeable(s, ws, s.outputs[0].zone);
        assert(forall|i: int| 0 <= i < ws.len() ==> #[trigger] ws[i] == s.elements[i].window);
        assert forall|i: int| 0 <= i < s.elements.len() implies (#[trigger] s.elements[i]).window
            == ws[i] by {}
    }
}

/// Whether the parentless window `w` can be put in `zone`.
pub open spec fn placeable(s: StateView, w: u64, zone: Rect) -> bool {
    arrangement::can_fill(s.windows[w].max_size, zone.size) || centers_in(
        s.windows[w].geometry.size,
        zone,
    )
}

proof fn lemma_placeable(s: StateView, ws: Seq<u64>, zone: Rect)
    requires
        forall|i: int| 0 <= i < ws.len() ==> s.windows[#[trigger] ws[i]].parent is None,
    ensures
        s.reflow_windows_fit(ws, zone) <==> forall|i: int|
            0 <= i < ws.len() ==> placeable(s, #[trigger] ws[i], zone),
    decreases ws.len(),
{
    if ws.len() > 0 {
        let rest = ws.drop_last();
        let w = ws.last();
        let n = ws.len() as int;
        assert(forall|i: int| 0 <= i < rest.len() ==> #[trigger] rest[i] == ws[i]);
        assert(ws[n - 1] == w);
        lemma_placeable(s, rest, zone);
        lemma_shapes_stay(s, rest, zone);
        law_filling(s.windows[w].max_size, zone.size);
        law_centering(zone, s.windows[w].geometry);
        let a = s.reflow_windows(rest, zone);
        assert(same_shape(a.windows[w], s.windows[w]));
        assert(a.reflow_window_fits(w, zone) <==> placeable(s, w, zone));
        if forall|i: int| 0 <= i < ws.len() ==> placeable(s, #[trigger] ws[i], zone) {
            assert forall|i: int| 0 <= i < rest.len() implies placeable(
                s,
                #[trigger] rest[i],
                zone,
            ) by {
                assert(placeable(s, ws[i], zone));
            }
            assert(placeable(s, ws[n - 1], zone));
        }
        if s.reflow_windows_fit(ws, zone) {
            assert forall|i: int| 0 <= i < ws.len() implies placeable(s, #[trigger] ws[i], zone) by {
                if i < n - 1 {
                    assert(placeable(s, rest[i], zone));
                }
            }
        }
    }
}

/// Whether two windows have the same parent and the same sizes.
spec fn same_shape(a: Window, b: Window) -> bool {
    a.parent == b.parent && a.max_size == b.max_size && a.geometry == b.geometry
}

proof fn lemma_shapes_stay(s: StateView, ws: Seq<u64>, zone: Rect)
    ensures
        forall|v: u64|
            same_shape(#[trigger] s.reflow_windows(ws, zone).windows[v], s.windows[v]),
    decreases ws.len(),
{
    if ws.len() > 0 {
        lemma_shapes_stay(s, ws.drop_last(), zone);
        let a = s.reflow_windows(ws.drop_last(), zone);
        let b = s.reflow_windows(ws, zone);
        assert forall|v: u64| same_shape(#[trigger] b.windows[v], s.windows[v]) by {
            assert(same_shape(a.windows[v], s.windows[v]));
        }
    }
}

/// A layer surface can be committed whenever the layout stays, and else if the windows can be placed
/// anew; a surface that is no toplevel and no layer surface can always be committed.
pub proof fn law_surfaces_can_be_committed(
    s: StateView,
    surface: u64,
    popup: Option<PopupCommit>,
    layout_changed: bool,
    pointer: Option<Point>,
    serial: u32,
    i: int,
    j: int,
)
    ensures
        s.layer_commit_fits(surface, false),
        s.reflow_fits() ==> s.layer_commit_fits(surface, layout_changed),
        !s.toplevels.contains_key(surface) ==> s.toplevel_commit_fits(surface, pointer, serial),
        surface_laws::no_layer(s, surface) && !s.toplevels.contains_key(surface) ==> s.commit_fits(
            surface,
            None,
            popup,
            layout_changed,
            pointer,
            serial,
        ),
        surface_laws::layer_held(s, surface, i, j) ==> s.commit_fits(
            surface,
            None,
            popup,
            false,
            pointer,
            serial,
        ),
{
    reveal(StateView::toplevel_commit_fits);
    let told = s.popup_commit(surface, popup);
    assert(told.outputs == s.outputs);
    if surface_laws::no_layer(s, surface) {
        assert(surface_laws::no_layer(told, surface));
        surface_laws::lemma_no_layer(told, surface);
    }
    if surface_laws::layer_held(s, surface, i, j) {
        assert(surface_laws::layer_held(told, surface, i, j));
        surface_laws::lemma_layer_held(told, surface, i, j);
    }
}

/// The first commit of a toplevel can always be handled if it is kept as a tooltip, if it has no
/// parent and there is no output or it can fill the zone, and if its parent is not stacked; else just
/// if it can be centered in the zone, or put over its parent.
pub proof fn law_toplevels_can_be_opened(s: StateView, w: u64, p: u64, at: Point, serial: u32)
    requires
        s.wf(),
        s.toplevels.contains_key(w),
        !arrangement::present(s.elements, w),
        p != w,
    ensures
        mapping_laws::nameless_orphan(s, w) ==> s.first_commit_fits(w, serial),
        s.windows[w].parent is None && s.outputs.len() == 0 ==> s.first_commit_fits(w, serial),
        s.windows[w].parent is None && s.outputs.len() > 0 && !mapping_laws::nameless_orphan(s, w)
            ==> (s.first_commit_fits(w, serial) <==> placeable(s, w, s.outputs[0].zone)),
        s.windows[w].parent == Some(p) && !arrangement::present(s.elements, p)
            ==> s.first_commit_fits(w, serial),
        s.windows[w].parent == Some(p) && arrangement::lies_at(s.elements, p, at) && goes_over(
            s.windows[w].geometry.size,
            Rect { loc: at, size: s.windows[p].geometry.size },
        ) ==> s.first_commit_fits(w, serial),
{
    lemma_anonymous(s, w);
    if s.outputs.len() > 0 {
        law_filling(s.windows[w].max_size, s.outputs[0].zone.size);
        law_centering(s.outputs[0].zone, s.windows[w].geometry);
    }
    if s.windows[w].parent == Some(p) {
        mapping_laws::lemma_stacked(s, w, serial);
        let t = s.stack_toplevel(w, serial);
        lemma_lies(s.elements);
        lemma_lies(t.elements);
        lemma_others(t.elements, w);
        lemma_others(s.elements, w);
        if !arrangement::present(s.elements, p) {
            assert(!space::stacked(s.elements, p));
            assert(!space::stacked(t.elements, p)) by {
                space::lemma_moves(t.elements, w, at);
                space::lemma_moves(s.elements, w, at);
            }
        } else if arrangement::lies_at(s.elements, p, at) {
            mapping_laws::lemma_unmapped_keeps(t.elements, w, p);
            mapping_laws::lemma_unmapped_keeps(s.elements, w, p);
            law_placing_children(
                Rect { loc: at, size: s.windows[p].geometry.size },
                s.windows[w].geometry.size,
            );
        }
    }
}

proof fn lemma_anonymous(s: StateView, w: u64)
    ensures
        s.is_anonymous(w) <==> mapping_laws::nameless_orphan(s, w),
{
    assert(s.windows[w].title@.len() == 0 ==> s.windows[w].title@ =~= Seq::<char>::empty());
    assert(s.windows[w].app_id@.len() == 0 ==> s.windows[w].app_id@ =~= Seq::<char>::empty());
}

/// A later commit of a toplevel can be handled: for a window that does not change its mode, and one
/// that is maximized by it, always; for one that is released if it can be centered in the zone; for a
/// dialog if it can be put over its parent; for a tooltip if the ends of the output are coordinates.
pub proof fn law_toplevels_can_be_committed(
    s: StateView,
    w: u64,
    p: u64,
    at: Point,
    pointer: Option<Point>,
    serial: u32,
)
    requires
        s.wf(),
        s.toplevels.contains_key(w),
        s.toplevels[w].mapped,
    ensures
        ({
            let fits = s.toplevel_commit_fits(w, pointer, serial);
            let win = s.windows[w];
            let zone = s.outputs[0].zone;
            let tooltip = s.toplevels[w].kind is Transient;
            let fills = arrangement::can_fill(win.max_size, zone.size);
            &&& win.parent is None && !tooltip && (s.outputs.len() == 0
                || !win.initial_configure_sent || s.toplevels[w].mode == WindowMode::Fullscreen
                || fills || !win.committed_maximized) ==> fits
            &&& win.parent is None && !tooltip && s.outputs.len() > 0 && centers_in(
                win.geometry.size,
                zone,
            ) ==> fits
            &&& !tooltip && win.parent == Some(p) && !arrangement::present(s.elements, p) ==> fits
            &&& !tooltip && win.parent == Some(p) && arrangement::lies_at(s.elements, p, at) ==> (
            fits <==> goes_over(
                win.geometry.size,
                Rect { loc: at, size: s.windows[p].geometry.size },
            ))
            &&& win.parent is None && tooltip && mode_laws::whole_output(s) is None ==> fits
            &&& win.parent is None && tooltip && mode_laws::whole_output(s) is Some && ({
                let area = mode_laws::whole_output(s)->0;
                &&& area.loc.x + area.size.w <= 0x7fff_ffff
                &&& area.loc.y + area.size.h <= 0x7fff_ffff
                &&& win.geometry.size.w >= 0
                &&& win.geometry.size.h >= 0
            }) ==> fits
        }),
{
    reveal(StateView::toplevel_commit_fits);
    law_dialogs_can_be_centered(s, w, p, at);
    if s.outputs.len() > 0 {
        law_filling(s.windows[w].max_size, s.outputs[0].zone.size);
        law_centering(s.outputs[0].zone, s.windows[w].geometry);
    }
}

/// Whether the layer under the pointer is a layer of the first output that has a place.
pub open spec fn on_output(s: StateView, probe: Option<LayerProbe>, j: int) -> bool {
    probe matches Some(l) ==> input_laws::layer_at(s, l.layer, j)
        && s.outputs[0].layers@[j].geometry is Some
}

/// Input can be handled if it is about what is there: layers of the first output that have a place,
/// a stacked window, and as many lock surfaces as there are. The pointer moves on an output only.
/// Keys, relative motions, scrolling and other devices can always be handled.
pub proof fn law_input_can_be_handled(
    s: StateView,
    probe: Probe,
    grabbed: bool,
    button: u32,
    pressed: bool,
    time: u32,
    overlay: int,
    top: int,
    bottom: int,
    background: int,
)
    requires
        probe.locks@.len() == s.lock_surfaces.len(),
        on_output(s, probe.overlay, overlay),
        on_output(s, probe.top, top),
        on_output(s, probe.bottom, bottom),
        on_output(s, probe.background, background),
        probe.window matches Some(w) ==> arrangement::present(s.elements, w.window),
    ensures
        s.can_happen(InputEvent::PointerButton { probe, grabbed, button, pressed, time }),
        s.can_happen(InputEvent::PointerMotionAbsolute { probe, time }) <==> s.outputs.len() > 0
            && s.outputs[0].geometry is Some,
        s.can_happen(InputEvent::Keyboard { key: button, pressed, time }),
        s.can_happen(InputEvent::PointerMotion),
        s.can_happen(InputEvent::Other),
{
    lemma_on_output(s, probe.overlay, overlay);
    lemma_on_output(s, probe.top, top);
    lemma_on_output(s, probe.bottom, bottom);
    lemma_on_output(s, probe.background, background);
    if let Some(w) = probe.window {
        assert(space::stacked(s.elements, w.window));
    }
}

proof fn lemma_on_output(s: StateView, probe: Option<LayerProbe>, j: int)
    requires
        on_output(s, probe, j),
    ensures
        s.layer_probed(probe),
{
    if let Some(l) = probe {
        input_laws::lemma_layer_at(s, l.layer, j);
    }
}

/// The windows can be placed anew just if each can in its turn, from the bottom up: a dialog over its
/// parent, and any other window in the zone.
pub proof fn law_windows_can_be_placed_in_turn(s: StateView)
    requires
        s.outputs.len() > 0,
    ensures
        s.reflow_fits() <==> forall|k: int|
            0 <= k < s.elements.len() ==> #[trigger] placeable_in_turn(s, k),
{
    let ws = space::windows_of(s.elements);
    let zone = s.outputs[0].zone;
    let n = s.elements.len() as int;
    lemma_in_turn(s, ws, zone);
    assert forall|k: int| 0 <= k < n implies #[trigger] placeable_in_turn(s, k) == turn(
        s,
        ws,
        zone,
        k,
    ) by {
        assert(ws[k] == s.elements[k].window);
    }
    if forall|k: int| 0 <= k < n ==> #[trigger] placeable_in_turn(s, k) {
        assert forall|k: int| 0 <= k < ws.len() implies #[trigger] turn(s, ws, zone, k) by {
            assert(placeable_in_turn(s, k));
        }
    }
}

/// Whether the `k`th window of the stack can be placed anew once those below it have been.
pub open spec fn placeable_in_turn(s: StateView, k: int) -> bool {
    let w = s.elements[k].window;
    let zone = s.outputs[0].zone;
    if s.windows[w].parent is Some {
        s.reflow_windows(space::windows_of(s.elements).take(k), zone).child_fits(w)
    } else {
        placeable(s, w, zone)
    }
}

/// Whether the `k`th of the windows `ws` can be placed anew in its turn.
spec fn turn(s: StateView, ws: Seq<u64>, zone: Rect, k: int) -> bool {
    if s.windows[ws[k]].parent is Some {
        s.reflow_windows(ws.take(k), zone).child_fits(ws[k])
    } else {
        placeable(s, ws[k], zone)
    }
}

proof fn lemma_in_turn(s: StateView, ws: Seq<u64>, zone: Rect)
    ensures
        s.reflow_windows_fit(ws, zone) <==> forall|k: int|
            0 <= k < ws.len() ==> #[trigger] turn(s, ws, zone, k),
    decreases ws.len(),
{
    if ws.len() > 0 {
        let rest = ws.drop_last();
        let w = ws.last();
        let n = ws.len() as int;
        assert(forall|i: int| 0 <= i < rest.len() ==> #[trigger] rest[i] == ws[i]);
        assert(ws[n - 1] == w);
        assert(ws.take(n - 1) =~= rest);
        lemma_in_turn(s, rest, zone);
        lemma_shapes_stay(s, rest, zone);
        law_filling(s.windows[w].max_size, zone.size);
        law_centering(zone, s.windows[w].geometry);
        let a = s.reflow_windows(rest, zone);
        assert(same_shape(a.windows[w], s.windows[w]));
        assert(a.reflow_window_fits(w, zone) <==> turn(s, ws, zone, n - 1));
        assert forall|k: int| 0 <= k < n - 1 implies turn(s, rest, zone, k) == turn(
            s,
            ws,
            zone,
            k,
        ) by {
            assert(rest.take(k) =~= ws.take(k));
        }
        if forall|k: int| 0 <= k < ws.len() ==> #[trigger] turn(s, ws, zone, k) {
            assert forall|k: int| 0 <= k < rest.len() implies #[trigger] turn(s, rest, zone, k) by {
                assert(turn(s, ws, zone, k));
            }
            assert(turn(s, ws, zone, n - 1));
        }
        if s.reflow_windows_fit(ws, zone) {
            assert forall|k: int| 0 <= k < ws.len() implies #[trigger] turn(s, ws, zone, k) by {
                if k < n - 1 {
                    assert(turn(s, rest, zone, k));
                }
            }
        }
    }
}

/// A commit can be handled just if the commit of the layer surface or of the toplevel can, and the
/// dialog that is centered afterwards can be.
pub proof fn law_commit_can_be_handled(
    s: StateView,
    surface: u64,
    w: u64,
    popup: Option<PopupCommit>,
    layout_changed: bool,
    pointer: Option<Point>,
    serial: u32,
    i: int,
    j: int,
)
    ensures
        ({
            let told = s.popup_commit(surface, popup);
            let plain = s.commit_fits(surface, None, popup, layout_changed, pointer, serial);
            let after = s.commit(surface, None, popup, layout_changed, pointer, serial);
            &&& surface_laws::layer_held(s, surface, i, j) ==> plain == told.layer_commit_fits(
                surface,
                layout_changed,
            )
            &&& surface_laws::layer_held(s, surface, i, j) ==> told.layer_commit_fits(
                surface,
                layout_changed,
            ) == (layout_changed ==> told.reflow_fits())
            &&& surface_laws::no_layer(s, surface) ==> plain == told.toplevel_commit_fits(
                surface,
                pointer,
                serial,
            )
            &&& s.commit_fits(surface, Some(w), popup, layout_changed, pointer, serial) == (plain
                && after.child_fits(w))
        }),
{
    let told = s.popup_commit(surface, popup);
    assert(told.outputs == s.outputs);
    if surface_laws::no_layer(s, surface) {
        assert(surface_laws::no_layer(told, surface));
        surface_laws::lemma_no_layer(told, surface);
    }
    if surface_laws::layer_held(s, surface, i, j) {
        assert(surface_laws::layer_held(told, surface, i, j));
        surface_laws::lemma_layer_held(told, surface, i, j);
    }
}

/// The first commit of a toplevel can be handled, with all that follows: always for one that is kept
/// as a tooltip, and for a window or a dialog wherever there is a place for it.
pub proof fn law_first_commits_can_be_handled(
    s: StateView,
    w: u64,
    p: u64,
    at: Point,
    pointer: Option<Point>,
    serial: u32,
)
    requires
        s.wf(),
        s.toplevels.contains_key(w),
        !s.toplevels[w].mapped,
        !arrangement::present(s.elements, w),
        p != w,
    ensures
        ({
            let fits = s.toplevel_commit_fits(w, pointer, serial);
            &&& mapping_laws::nameless_orphan(s, w) ==> fits
            &&& s.windows[w].parent is None && s.outputs.len() == 0 ==> fits
            &&& s.windows[w].parent is None && s.outputs.len() > 0 && placeable(
                s,
                w,
                s.outputs[0].zone,
            ) ==> fits
            &&& s.windows[w].parent == Some(p) && !arrangement::present(s.elements, p) ==> fits
            &&& s.windows[w].parent == Some(p) && arrangement::lies_at(s.elements, p, at)
                && goes_over(
                s.windows[w].geometry.size,
                Rect { loc: at, size: s.windows[p].geometry.size },
            ) ==> fits
        }),
{
    reveal(StateView::toplevel_commit_fits);
    lemma_anonymous(s, w);
    law_toplevels_can_be_opened(s, w, p, at, serial);
    if s.outputs.len() > 0 {
        law_filling(s.windows[w].max_size, s.outputs[0].zone.size);
        law_centering(s.outputs[0].zone, s.windows[w].geometry);
    }
    if !mapping_laws::nameless_orphan(s, w) {
        mapping_laws::lemma_stacked(s, w, serial);
        let st = s.stack_toplevel(w, serial);
        let m = s.map_toplevel(w, serial);
        assert(m == st.center_child(w));
        let r = m.recheck_maximize(w);
        if s.windows[w].parent == Some(p) {
            assert(r == m);
            lemma_lies(s.elements);
            lemma_lies(st.elements);
            lemma_others(st.elements, w);
            lemma_others(s.elements, w);
            if !arrangement::present(s.elements, p) {
                assert(!space::stacked(s.elements, p));
                assert(!space::stacked(st.elements, p)) by {
                    space::lemma_moves(st.elements, w, at);
                    space::lemma_moves(s.elements, w, at);
                }
                assert(m == st);
            } else if arrangement::lies_at(s.elements, p, at) {
                mapping_laws::lemma_unmapped_keeps(st.elements, w, p);
                mapping_laws::lemma_unmapped_keeps(s.elements, w, p);
                let parent = Rect { loc: at, size: s.windows[p].geometry.size };
                if goes_over(s.windows[w].geometry.size, parent) {
                    law_placing_children(parent, s.windows[w].geometry.size);
                    assert(arrangement::lies_at(st.elements, p, at));
                    placement_laws::law_centered_dialog_hangs_on_parent(st, w, p, at);
                    mapping_laws::lemma_centers(st, w);
                    lemma_lies(m.elements);
                    assert(arrangement::lies_at(m.elements, p, at));
                    law_dialogs_can_be_centered(m, w, p, at);
                }
            }
        }
    }
}

} // verus!
