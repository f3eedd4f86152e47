//! Where windows and dialogs end up.

use vstd::prelude::*;
use crate::arrangement;
use crate::arrangement::{lemma_lies, lemma_others};
use crate::command::Command;
use crate::geometry::{Point, Rect, Size};
use crate::handlers::compositor::PopupCommit;
use crate::handlers::xdg_shell::laws::{
    lemma_reflow_prefix, lemma_reflow_window, lemma_reflow_window_order, lemma_relocated,
};
use crate::space;
use crate::space::{lemma_level, lemma_raised_above, Element};
use crate::state::StateView;
use crate::toplevel::{PendingChange, SizeChange};

verus! {

/// Whether every place over the middle of `parent` is within the coordinate range.
pub open spec fn middle_in_range(child: Size, parent: Rect) -> bool {
    &&& forall|x: int| #[trigger]
        arrangement::shares_middle(x, child.w as int, parent.loc.x as int, parent.size.w as int)
            ==> i32::MIN <= x <= i32::MAX
    &&& forall|y: int| #[trigger]
        arrangement::shares_middle(y, child.h as int, parent.loc.y as int, parent.size.h as int)
            ==> i32::MIN <= y <= i32::MAX
}

/// Whether in the stack `es` the dialog `w` lies over the middle of its parent `p` and above it.
pub open spec fn hangs_on(s: StateView, es: Seq<Element>, w: u64, p: u64, at: Point) -> bool {
    &&& arrangement::lies_at(es, p, at)
    &&& arrangement::present(es, w)
    &&& arrangement::above(es, w, p)
    &&& forall|i: int|
        0 <= i < es.len() && (#[trigger] es[i]).window == w ==> arrangement::over_middle(
            es[i].loc,
            s.windows[w].geometry.size,
            Rect { loc: at, size: s.windows[p].geometry.size },
        )
}

/// A child that is placed over its parent lies over its middle.
pub(crate) proof fn lemma_child_over_middle(parent: Rect, child: Size)
    requires
        middle_in_range(child, parent),
    ensures
        arrangement::over_middle(parent.child_spec(child), child, parent),
{
    let x = parent.loc.x + crate::geometry::margin(parent.size.w as int, child.w as int);
    let y = parent.loc.y + crate::geometry::margin(parent.size.h as int, child.h as int);
    assert(arrangement::shares_middle(
        x,
        child.w as int,
        parent.loc.x as int,
        parent.size.w as int,
    ));
    assert(arrangement::shares_middle(
        y,
        child.h as int,
        parent.loc.y as int,
        parent.size.h as int,
    ));
}

/// Whatever the parent of its parent is, a dialog that is centered lies over the middle of its
/// parent and above it. The parent and the other windows stay where they are.
pub proof fn law_centered_dialog_hangs_on_parent(s: StateView, w: u64, p: u64, at: Point)
    requires
        s.wf(),
        s.windows[w].parent == Some(p),
        p != w,
        arrangement::present(s.elements, w),
        arrangement::lies_at(s.elements, p, at),
        middle_in_range(
            s.windows[w].geometry.size,
            Rect { loc: at, size: s.windows[p].geometry.size },
        ),
    ensures
        hangs_on(s, s.center_child(w).elements, w, p, at),
        arrangement::same_others(s.center_child(w).elements, s.elements, w),
        s.center_child(w).toplevels == s.toplevels,
        s.center_child(w).windows == s.windows,
{
    lemma_lies(s.elements);
    let parent = Rect { loc: at, size: s.windows[p].geometry.size };
    let child = s.windows[w].geometry.size;
    lemma_child_over_middle(parent, child);
    assert(s.has_stacked_parent(w));
    assert(s.element_geometry(p) == parent);
    let loc = parent.child_spec(child);
    let a = space::relocated(s.elements, w, loc);
    let b = space::raised_above(a, w, p);
    let t = s.center_child(w);
    assert(t.elements == b);
    lemma_relocated(s.elements, w, loc);
    lemma_raised_above(a, w, p);
    lemma_lies(b);
    assert(space::stacked(a, w) && space::stacked(a, p));
    assert(space::stacked(b, w) && space::stacked(b, p));
    assert(space::loc_of(b, w) == space::loc_of(a, w));
    assert(space::loc_of(b, p) == space::loc_of(a, p));
    assert(arrangement::lies_at(b, p, at));
    assert(arrangement::lies_at(b, w, loc));
    lemma_others(s.elements, w);
    lemma_others(b, w);
    assert(space::unmapped(a, w) =~= space::unmapped(s.elements, w));
    if space::level(a, w) < space::level(a, p) {
        let j = space::level(a, p);
        assert(b[j].window == w);
        lemma_level(b, j);
        assert(b.remove(j) =~= a.remove(space::level(a, w)));
    }
    assert(space::unmapped(b, w) =~= space::unmapped(s.elements, w));
}

/// Every commit of a mapped dialog leaves it over the middle of its parent and above it, whatever
/// the parent of its parent is.
pub proof fn law_commit_keeps_dialog_on_parent(
    s: StateView,
    w: u64,
    p: u64,
    at: Point,
    pointer: Option<Point>,
    serial: u32,
)
    requires
        s.wf(),
        s.toplevels.contains_key(w),
        s.toplevels[w].mapped,
        s.windows[w].parent == Some(p),
        p != w,
        arrangement::present(s.elements, w),
        arrangement::lies_at(s.elements, p, at),
        middle_in_range(
            s.windows[w].geometry.size,
            Rect { loc: at, size: s.windows[p].geometry.size },
        ),
    ensures
        hangs_on(s, s.toplevel_commit(w, pointer, serial).elements, w, p, at),
        arrangement::same_others(s.toplevel_commit(w, pointer, serial).elements, s.elements, w),
{
    reveal(StateView::toplevel_commit);
    let t = s.commit_mapping(w, pointer, serial);
    assert(t.recheck_maximize(w) == t);
    assert(t.elements == s.elements && t.windows == s.windows);
    law_centered_dialog_hangs_on_parent(s, w, p, at);
    assert(t.center_child(w).elements == s.center_child(w).elements);
}

/// A commit of a surface of the dialog `w` itself, or of one of its subsurfaces, ends with the
/// dialog over the middle of its parent and above it.
pub proof fn law_commit_ends_with_dialog_on_parent(
    s: StateView,
    surface: u64,
    w: u64,
    p: u64,
    at: Point,
    popup: Option<PopupCommit>,
    layout_changed: bool,
    pointer: Option<Point>,
    serial: u32,
)
    requires
        s.wf(),
        !s.toplevels.contains_key(surface),
        !s.is_layer(surface),
        s.windows[w].parent == Some(p),
        p != w,
        arrangement::present(s.elements, w),
        arrangement::lies_at(s.elements, p, at),
        middle_in_range(
            s.windows[w].geometry.size,
            Rect { loc: at, size: s.windows[p].geometry.size },
        ),
    ensures
        s.child_to_center(w, false) == Some(w),
        s.child_to_center(w, true) is None,
        hangs_on(
            s,
            s.commit(surface, Some(w), popup, layout_changed, pointer, serial).elements,
            w,
            p,
            at,
        ),
{
    reveal(StateView::toplevel_commit);
    lemma_lies(s.elements);
    let told = s.popup_commit(surface, popup);
    assert(!told.is_layer(surface)) by {
        assert(told.outputs == s.outputs);
        if told.is_layer(surface) {
            let i = choose|i: int|
                0 <= i < told.outputs.len()
                    && crate::handlers::xdg_shell::popups::holds_layer(
                    #[trigger] told.outputs[i],
                    surface,
                );
            assert(crate::handlers::xdg_shell::popups::holds_layer(s.outputs[i], surface));
        }
    }
    law_centered_dialog_hangs_on_parent(s, w, p, at);
    assert(told.center_child(w).elements == s.center_child(w).elements);
}

/// Whether from position `k` on the commands propose the size of `zone` to `w`, send it the
/// proposal if it was `configured` before, and put it at the corner of `zone`.
pub open spec fn proposes_zone(
    cs: Seq<Command>,
    k: int,
    w: u64,
    zone: Rect,
    configured: bool,
) -> bool {
    &&& 0 <= k
    &&& k + (if configured {
        2int
    } else {
        1int
    }) < cs.len()
    &&& cs[k] == (Command::SetPending {
        window: w,
        change: PendingChange {
            size: SizeChange::To(zone.size),
            bounds: None,
            maximized: None,
            fullscreen: None,
            activated: None,
        },
    })
    &&& configured ==> cs[k + 1] == (Command::SendPendingConfigure { window: w })
    &&& cs[k + (if configured {
        2int
    } else {
        1int
    })] == (Command::RelocateWindow { window: w, loc: zone.loc })
}

/// Whether `w` is one of the windows that are resized to `zone`.
pub open spec fn resized_to(s: StateView, w: u64, zone: Rect) -> bool {
    s.windows[w].parent is None && arrangement::can_fill(s.windows[w].max_size, zone.size)
}

/// What placing the first `k` windows anew asks for.
proof fn lemma_reflow_commands(s: StateView, zone: Rect, k: int)
    requires
        s.wf(),
        0 <= k <= s.elements.len(),
    ensures
        ({
            let ws = space::windows_of(s.elements);
            let r = s.reflow_windows(ws.take(k), zone);
            &&& s.commands.is_prefix_of(r.commands)
            &&& r.toplevels == s.toplevels
            &&& r.active_window == s.active_window
            &&& r.keyboard_focus == s.keyboard_focus
            &&& r.outputs == s.outputs
            &&& forall|j: int| k <= j < ws.len() ==> r.windows[#[trigger] ws[j]] == s.windows[ws[j]]
            &&& forall|i: int|
                0 <= i < k && resized_to(s, #[trigger] ws[i], zone) ==> exists|c: int|
                    s.commands.len() <= c && #[trigger] proposes_zone(
                        r.commands,
                        c,
                        ws[i],
                        zone,
                        s.windows[ws[i]].initial_configure_sent,
                    )
            &&& forall|c: int|
                s.commands.len() <= c < r.commands.len() ==> match #[trigger] r.commands[c] {
                    Command::SetPending { window, change } => resized_to(s, window, zone) && change
                        == (PendingChange {
                        size: SizeChange::To(zone.size),
                        bounds: None,
                        maximized: None,
                        fullscreen: None,
                        activated: None,
                    }),
                    Command::SendPendingConfigure { window } => resized_to(s, window, zone)
                        && s.windows[window].initial_configure_sent,
                    Command::RelocateWindow { .. } => true,
                    Command::RaiseAbove { window, reference } => s.windows[window].parent == Some(
                        reference,
                    ),
                    _ => false,
                }
        }),
    decreases k,
{
    let ws = space::windows_of(s.elements);
    if k == 0 {
        assert(ws.take(0) =~= Seq::empty());
        assert(s.commands =~= s.commands.take(s.commands.len() as int));
    } else {
        lemma_reflow_commands(s, zone, k - 1);
        let q = s.reflow_windows(ws.take(k - 1), zone);
        let r = s.reflow_windows(ws.take(k), zone);
        let w = ws[k - 1];
        assert(ws.take(k).drop_last() =~= ws.take(k - 1));
        assert(ws.take(k).last() == w);
        assert(r == q.reflow_window(w, zone));
        assert(q.windows[w] == s.windows[w]);
        let n = s.commands.len() as int;
        let m = q.commands.len() as int;
        assert(q.commands.is_prefix_of(r.commands)) by {
            assert(q.commands =~= r.commands.take(m));
        }
        assert(s.commands =~= r.commands.take(n)) by {
            assert(s.commands == q.commands.take(n));
        }
        assert forall|j: int| k <= j < ws.len() implies r.windows[#[trigger] ws[j]]
            == s.windows[ws[j]] by {
            assert(ws[j] != w) by {
                assert(s.elements[j].window != s.elements[k - 1].window);
            }
            assert(q.windows[ws[j]] == s.windows[ws[j]]);
        }
        assert forall|i: int| 0 <= i < k && resized_to(s, #[trigger] ws[i], zone) implies exists|
            c: int,
        |
            s.commands.len() <= c && #[trigger] proposes_zone(
                r.commands,
                c,
                ws[i],
                zone,
                s.windows[ws[i]].initial_configure_sent,
            ) by {
            let sent = s.windows[ws[i]].initial_configure_sent;
            if i < k - 1 {
                let c = choose|c: int|
                    s.commands.len() <= c && #[trigger] proposes_zone(
                        q.commands,
                        c,
                        ws[i],
                        zone,
                        sent,
                    );
                assert(forall|x: int| 0 <= x < m ==> #[trigger] r.commands[x] == q.commands[x]);
                assert(proposes_zone(r.commands, c, ws[i], zone, sent));
            } else {
                assert(proposes_zone(r.commands, m, ws[i], zone, sent));
            }
        }
        assert(forall|x: int| 0 <= x < m ==> #[trigger] r.commands[x] == q.commands[x]);
    }
}

/// Placing the windows anew proposes the size of the zone to every window that can fill it, whatever
/// its present size, sends it the proposal if it was configured before, and puts it at the corner of
/// the zone. No other window is proposed a size, and nothing else changes but places and order.
pub proof fn law_reflow_proposes_zone(s: StateView, i: int)
    requires
        s.wf(),
        s.outputs.len() > 0,
        0 <= i < s.elements.len(),
    ensures
        ({
            let w = s.elements[i].window;
            let zone = s.outputs[0].zone;
            let t = s.reflow_toplevels();
            &&& s.commands.is_prefix_of(t.commands)
            &&& s.windows[w].parent is None && arrangement::can_fill(
                s.windows[w].max_size,
                zone.size,
            ) ==> exists|k: int|
                s.commands.len() <= k && #[trigger] proposes_zone(
                    t.commands,
                    k,
                    w,
                    zone,
                    s.windows[w].initial_configure_sent,
                )
            &&& s.windows[w].parent is Some || !arrangement::can_fill(
                s.windows[w].max_size,
                zone.size,
            ) ==> forall|k: int|
                s.commands.len() <= k < t.commands.len() ==> match #[trigger] t.commands[k] {
                    Command::SetPending { window, .. } => window != w,
                    Command::SendPendingConfigure { window } => window != w,
                    _ => true,
                }
            &&& t.toplevels == s.toplevels
            &&& t.active_window == s.active_window
            &&& t.keyboard_focus == s.keyboard_focus
            &&& forall|k: int|
                s.commands.len() <= k < t.commands.len() ==> !(
                #[trigger] t.commands[k] is SetKeyboardFocus)
        }),
{
    let ws = space::windows_of(s.elements);
    let n = s.elements.len() as int;
    lemma_reflow_commands(s, s.outputs[0].zone, n);
    assert(ws.take(n) =~= ws);
    assert(ws[i] == s.elements[i].window);
    assert(resized_to(s, ws[i], s.outputs[0].zone) <==> s.windows[ws[i]].parent is None
        && arrangement::can_fill(s.windows[ws[i]].max_size, s.outputs[0].zone.size));
}

/// Whether every place in the middle of `area` is within the coordinate range.
pub open spec fn center_in_range(inner: Size, area: Rect) -> bool {
    &&& forall|x: int| #[trigger]
        arrangement::in_middle(x, inner.w as int, area.loc.x as int, area.size.w as int)
            ==> i32::MIN <= x <= i32::MAX
    &&& forall|y: int| #[trigger]
        arrangement::in_middle(y, inner.h as int, area.loc.y as int, area.size.h as int)
            ==> i32::MIN <= y <= i32::MAX
}

/// A window that is placed in an area goes to its corner if it can fill it, else to its middle.
pub(crate) proof fn lemma_zone_loc(s: StateView, w: u64, zone: Rect)
    requires
        center_in_range(s.windows[w].geometry.size, zone),
    ensures
        arrangement::can_fill(s.windows[w].max_size, zone.size) ==> s.zone_loc(w, zone) == zone.loc,
        !arrangement::can_fill(s.windows[w].max_size, zone.size) ==> arrangement::centered_in(
            s.zone_loc(w, zone),
            s.windows[w].geometry.size,
            zone,
        ),
        arrangement::centered_in(
            zone.centered_spec(s.windows[w].geometry),
            s.windows[w].geometry.size,
            zone,
        ),
{
    let geo = s.windows[w].geometry;
    let x = zone.loc.x + crate::geometry::clamped_margin(zone.size.w as int, geo.size.w as int);
    let y = zone.loc.y + crate::geometry::clamped_margin(zone.size.h as int, geo.size.h as int);
    assert(arrangement::in_middle(
        x,
        geo.size.w as int,
        zone.loc.x as int,
        zone.size.w as int,
    ));
    assert(arrangement::in_middle(
        y,
        geo.size.h as int,
        zone.loc.y as int,
        zone.size.h as int,
    ));
}

/// After the windows have been placed anew, a parentless window that can fill the zone is at its
/// corner, and any other parentless one is in its middle with the corner inside. The same windows are
/// stacked as before.
pub proof fn law_reflow_places_in_zone(s: StateView, w: u64)
    requires
        s.wf(),
        s.outputs.len() > 0,
        arrangement::present(s.elements, w),
        s.windows[w].parent is None,
        center_in_range(s.windows[w].geometry.size, s.outputs[0].zone),
    ensures
        arrangement::present(s.reflow_toplevels().elements, w),
        s.reflow_toplevels().elements.len() == s.elements.len(),
        forall|i: int|
            0 <= i < s.elements.len() ==> arrangement::present(
                s.reflow_toplevels().elements,
                (#[trigger] s.elements[i]).window,
            ),
        forall|i: int|
            #![trigger s.reflow_toplevels().elements[i]]
            0 <= i < s.elements.len() && s.reflow_toplevels().elements[i].window == w ==> if (
            arrangement::can_fill(s.windows[w].max_size, s.outputs[0].zone.size)) {
                s.reflow_toplevels().elements[i].loc == s.outputs[0].zone.loc
            } else {
                arrangement::centered_in(
                    s.reflow_toplevels().elements[i].loc,
                    s.windows[w].geometry.size,
                    s.outputs[0].zone,
                )
            },
{
    let zone = s.outputs[0].zone;
    let ws = space::windows_of(s.elements);
    let n = s.elements.len() as int;
    let t = s.reflow_toplevels();
    lemma_reflow_prefix(s, zone, n);
    lemma_reflow_len(s, ws, zone);
    assert(ws.take(n) =~= ws);
    lemma_lies(s.elements);
    lemma_lies(t.elements);
    lemma_zone_loc(s, w, zone);
    let k = space::level(s.elements, w);
    assert(ws[k] == w);
    assert(space::loc_of(t.elements, ws[k]) == s.zone_loc(ws[k], zone));
    assert forall|i: int| 0 <= i < s.elements.len() implies arrangement::present(
        t.elements,
        (#[trigger] s.elements[i]).window,
    ) by {
        lemma_level(s.elements, i);
        assert(space::stacked(s.elements, s.elements[i].window));
    }
    assert forall|i: int|
        #![trigger t.elements[i]]
        0 <= i < t.elements.len() && t.elements[i].window == w implies t.elements[i].loc
        == s.zone_loc(w, zone) by {
        lemma_level(t.elements, i);
    }
}

/// Placing windows anew keeps their number.
proof fn lemma_reflow_len(s: StateView, ws: Seq<u64>, zone: Rect)
    ensures
        s.reflow_windows(ws, zone).elements.len() == s.elements.len(),
    decreases ws.len(),
{
    if ws.len() > 0 {
        lemma_reflow_len(s, ws.drop_last(), zone);
        lemma_reflow_one_len(s.reflow_windows(ws.drop_last(), zone), ws.last(), zone);
    }
}

proof fn lemma_reflow_one_len(s: StateView, w: u64, zone: Rect)
    ensures
        s.reflow_window(w, zone).elements.len() == s.elements.len(),
{
    if s.windows[w].parent is Some && s.has_stacked_parent(w) {
        let p = s.windows[w].parent->0;
        let a = space::relocated(
            s.elements,
            w,
            s.element_geometry(p).child_spec(s.windows[w].geometry.size),
        );
        if space::stacked(a, w) && space::stacked(a, p) && space::level(a, w) < space::level(a, p) {
            assert(a[space::level(a, w)].window == w);
            assert(a[space::level(a, p)].window == p);
        }
    }
}

/// Once the window at position `j` has been placed, the windows up to it stay where they are, in
/// their order.
proof fn lemma_reflow_later(s: StateView, zone: Rect, i: int, j: int, k: int)
    requires
        s.wf(),
        0 <= i < j < k <= s.elements.len(),
        ({
            let ws = space::windows_of(s.elements);
            let q = s.reflow_windows(ws.take(j + 1), zone);
            space::level(q.elements, ws[i]) < space::level(q.elements, ws[j])
        }),
    ensures
        ({
            let ws = space::windows_of(s.elements);
            let q = s.reflow_windows(ws.take(j + 1), zone);
            let r = s.reflow_windows(ws.take(k), zone);
            &&& space::level(r.elements, ws[i]) < space::level(r.elements, ws[j])
            &&& space::loc_of(r.elements, ws[i]) == space::loc_of(q.elements, ws[i])
            &&& space::loc_of(r.elements, ws[j]) == space::loc_of(q.elements, ws[j])
        }),
    decreases k,
{
    if k > j + 1 {
        let ws = space::windows_of(s.elements);
        lemma_reflow_later(s, zone, i, j, k - 1);
        lemma_reflow_prefix(s, zone, k - 1);
        let q = s.reflow_windows(ws.take(k - 1), zone);
        let w = ws[k - 1];
        assert(ws.take(k).drop_last() =~= ws.take(k - 1));
        assert(ws.take(k).last() == w);
        lemma_level(s.elements, i);
        lemma_level(s.elements, j);
        lemma_level(s.elements, k - 1);
        assert(w != ws[i] && w != ws[j]);
        assert(space::stacked(q.elements, ws[i]) && space::stacked(q.elements, ws[j])
            && space::stacked(q.elements, w));
        lemma_reflow_window(q, w, zone);
        lemma_reflow_window_order(q, w, zone, ws[i], ws[j]);
    }
}

/// Placing the windows anew keeps every dialog that is above its parent there, over its middle,
/// whatever the parent of its parent is.
pub proof fn law_reflow_keeps_dialogs_on_parents(s: StateView, w: u64, p: u64, at: Point)
    requires
        s.wf(),
        s.outputs.len() > 0,
        arrangement::present(s.elements, w),
        arrangement::present(s.elements, p),
        arrangement::above(s.elements, w, p),
        s.windows[w].parent == Some(p),
        arrangement::lies_at(s.reflow_toplevels().elements, p, at),
        middle_in_range(
            s.windows[w].geometry.size,
            Rect { loc: at, size: s.windows[p].geometry.size },
        ),
    ensures
        hangs_on(s, s.reflow_toplevels().elements, w, p, at),
{
    let zone = s.outputs[0].zone;
    let ws = space::windows_of(s.elements);
    let n = s.elements.len() as int;
    let t = s.reflow_toplevels();
    lemma_lies(s.elements);
    let i = space::level(s.elements, p);
    let j = space::level(s.elements, w);
    assert(s.elements[i].window == p && s.elements[j].window == w);
    assert(i < j);
    assert(ws[i] == p && ws[j] == w);
    assert(ws.take(n) =~= ws);
    lemma_reflow_prefix(s, zone, n);
    lemma_reflow_prefix(s, zone, j);
    lemma_reflow_prefix(s, zone, j + 1);
    lemma_lies(t.elements);
    let q = s.reflow_windows(ws.take(j), zone);
    let r = s.reflow_windows(ws.take(j + 1), zone);
    assert(ws.take(j + 1).drop_last() =~= ws.take(j));
    assert(ws.take(j + 1).last() == w);
    assert(r == q.reflow_window(w, zone));
    assert(space::stacked(q.elements, w) && space::stacked(q.elements, p));
    assert(s.windows.contains_key(w) && s.windows.contains_key(p));
    assert(q.windows[w].parent == Some(p));
    assert(q.windows[p].geometry == s.windows[p].geometry);
    lemma_reflow_window(q, w, zone);
    lemma_reflow_later(s, zone, i, j, n);
    assert(space::stacked(t.elements, w) && space::stacked(t.elements, p));
    let parent = Rect { loc: at, size: s.windows[p].geometry.size };
    assert(space::loc_of(t.elements, p) == at);
    lemma_child_over_middle(parent, s.windows[w].geometry.size);
    assert(arrangement::lies_at(t.elements, w, parent.child_spec(s.windows[w].geometry.size)));
}

/// After the windows have been placed anew, a dialog of a parentless window is above it, wherever it
/// was before.
pub proof fn law_reflow_raises_dialogs(s: StateView, w: u64, p: u64)
    requires
        s.wf(),
        s.outputs.len() > 0,
        arrangement::present(s.elements, w),
        arrangement::present(s.elements, p),
        s.windows[w].parent == Some(p),
        s.windows[p].parent is None,
    ensures
        arrangement::above(s.reflow_toplevels().elements, w, p),
        arrangement::present(s.reflow_toplevels().elements, w),
        arrangement::present(s.reflow_toplevels().elements, p),
{
    let zone = s.outputs[0].zone;
    let ws = space::windows_of(s.elements);
    let n = s.elements.len() as int;
    let t = s.reflow_toplevels();
    lemma_reflow_prefix(s, zone, n);
    assert(ws.take(n) =~= ws);
    lemma_lies(s.elements);
    lemma_lies(t.elements);
    let i = space::level(s.elements, p);
    let j = space::level(s.elements, w);
    assert(s.elements[i].window == p && s.elements[j].window == w);
    assert(ws[i] == p && ws[j] == w);
    assert(space::stacked(t.elements, w) && space::stacked(t.elements, p));
}

} // verus!
