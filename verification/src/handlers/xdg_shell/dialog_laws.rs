//! What keeping dialogs on their parents, and windows in the zone, asks for and leaves alone.

use vstd::prelude::*;
use crate::arrangement;
use crate::arrangement::lemma_lies;
use crate::command::Command;
use crate::geometry::{Point, Rect, Size};
use crate::geometry_laws::law_filling;
use crate::handlers::xdg_shell::placement_laws;
use crate::handlers::xdg_shell::placement_laws::{lemma_child_over_middle, lemma_zone_loc};
use crate::space;
use crate::space::{lemma_level, Element};
use crate::state::StateView;
use crate::toplevel::{PendingChange, SizeChange, Window};

verus! {

/// Whether from `s` to `t` the dialog `w` was moved over the middle of its parent `p` and raised
/// above it, and nothing else happened.
pub open spec fn only_centered(s: StateView, t: StateView, w: u64, p: u64, at: Point) -> bool {
    let n = s.commands.len() as int;
    &&& s.commands.is_prefix_of(t.commands)
    &&& t.commands.len() == n + 2
    &&& t.commands[n] is RelocateWindow
    &&& t.commands[n]->RelocateWindow_window == w
    &&& arrangement::over_middle(
        t.commands[n]->RelocateWindow_loc,
        s.windows[w].geometry.size,
        Rect { loc: at, size: s.windows[p].geometry.size },
    )
    &&& t.commands[n + 1] == (Command::RaiseAbove { window: w, reference: p })
    &&& t == (StateView { elements: t.elements, commands: t.commands, ..s })
}

/// A dialog whose parent is in the stack is moved over it and raised above it, even one that is not
/// in the stack itself; nothing happens to a window without a parent, or whose parent is not there.
pub proof fn law_centering_asks_for_two_moves(s: StateView, w: u64, p: u64, at: Point)
    requires
        s.wf(),
    ensures
        s.windows[w].parent is None ==> s.center_child(w) == s,
        s.windows[w].parent == Some(p) && !arrangement::present(s.elements, p) ==> s.center_child(
            w,
        ) == s,
        s.windows[w].parent == Some(p) && arrangement::lies_at(s.elements, p, at)
            && placement_laws::middle_in_range(
            s.windows[w].geometry.size,
            Rect { loc: at, size: s.windows[p].geometry.size },
        ) ==> only_centered(s, s.center_child(w), w, p, at),
{
    lemma_lies(s.elements);
    assert(arrangement::present(s.elements, p) <==> space::stacked(s.elements, p));
    let parent = Rect { loc: at, size: s.windows[p].geometry.size };
    let child = s.windows[w].geometry.size;
    if s.windows[w].parent == Some(p) && arrangement::lies_at(s.elements, p, at)
        && placement_laws::middle_in_range(child, parent) {
        lemma_child_over_middle(parent, child);
        assert(s.element_geometry(p) == parent);
        let t = s.center_child(w);
        assert(s.commands =~= t.commands.take(s.commands.len() as int));
    }
}

/// A later commit of a dialog centers it and changes nothing else: it is neither maximized nor
/// released nor sent anything.
pub proof fn law_dialog_commit_only_centers(
    s: StateView,
    w: u64,
    p: u64,
    at: Point,
    pointer: Option<Point>,
    serial: u32,
)
    requires
        s.wf(),
        s.toplevels.contains_key(w),
        s.toplevels[w].mapped,
        !(s.toplevels[w].kind is Transient),
        s.windows[w].parent == Some(p),
    ensures
        !arrangement::present(s.elements, p) ==> s.toplevel_commit(w, pointer, serial) == s,
        arrangement::lies_at(s.elements, p, at) && placement_laws::middle_in_range(
            s.windows[w].geometry.size,
            Rect { loc: at, size: s.windows[p].geometry.size },
        ) ==> only_centered(s, s.toplevel_commit(w, pointer, serial), w, p, at),
{
    reveal(StateView::toplevel_commit);
    law_centering_asks_for_two_moves(s, w, p, at);
}

/// A commit of a surface that is no toplevel does nothing to the windows.
pub proof fn law_other_commits_do_nothing(
    s: StateView,
    surface: u64,
    pointer: Option<Point>,
    serial: u32,
)
    requires
        !s.toplevels.contains_key(surface),
    ensures
        s.toplevel_commit(surface, pointer, serial) == s,
{
    reveal(StateView::toplevel_commit);
}

/// Placing windows anew changes the stack and asks for something, and does nothing else.
proof fn lemma_reflow_scope(s: StateView, ws: Seq<u64>, zone: Rect)
    requires
        forall|i: int| 0 <= i < ws.len() ==> s.windows.contains_key(#[trigger] ws[i]),
    ensures
        ({
            let t = s.reflow_windows(ws, zone);
            t == (StateView { elements: t.elements, commands: t.commands, ..s })
        }),
    decreases ws.len(),
{
    if ws.len() > 0 {
        let rest = ws.drop_last();
        let w = ws.last();
        assert(forall|i: int| 0 <= i < rest.len() ==> #[trigger] rest[i] == ws[i]);
        assert(s.windows.contains_key(ws[ws.len() - 1]));
        lemma_reflow_scope(s, rest, zone);
        if s.windows[w].initial_configure_sent {
            assert(Window { initial_configure_sent: true, ..s.windows[w] } == s.windows[w]);
            assert(s.windows.insert(w, s.windows[w]) =~= s.windows);
        }
    }
}

/// Placing the windows anew changes the stack and asks for something, and does nothing else; without
/// an output it does nothing at all.
pub proof fn law_reflow_scope(s: StateView)
    requires
        s.wf(),
    ensures
        s.outputs.len() == 0 ==> s.reflow_toplevels() == s,
        s.reflow_toplevels() == (StateView {
            elements: s.reflow_toplevels().elements,
            commands: s.reflow_toplevels().commands,
            ..s
        }),
{
    if s.outputs.len() > 0 {
        let ws = space::windows_of(s.elements);
        assert forall|i: int| 0 <= i < ws.len() implies s.windows.contains_key(#[trigger] ws[i]) by {
            assert(s.elements[i].window == ws[i]);
            assert(space::stacked(s.elements, ws[i]));
        }
        lemma_reflow_scope(s, ws, s.outputs[0].zone);
    }
}

/// Where a parentless window goes in `zone`.
pub open spec fn placed_in(e: Element, was: Element, max: Size, inner: Size, zone: Rect) -> bool {
    &&& e.window == was.window
    &&& if arrangement::can_fill(max, zone.size) {
        e.loc == zone.loc
    } else {
        arrangement::centered_in(e.loc, inner, zone)
    }
}

/// Where there are no dialogs, placing the windows anew keeps their order, and puts each at the
/// corner of the zone if it can fill it, else in its middle.
pub proof fn law_reflow_keeps_order_of_windows(s: StateView, i: int)
    requires
        s.wf(),
        s.outputs.len() > 0,
        forall|k: int|
            0 <= k < s.elements.len() ==> s.windows[(#[trigger] s.elements[k]).window].parent
                is None,
        0 <= i < s.elements.len(),
        placement_laws::center_in_range(
            s.windows[s.elements[i].window].geometry.size,
            s.outputs[0].zone,
        ),
    ensures
        s.reflow_toplevels().elements.len() == s.elements.len(),
        placed_in(
            s.reflow_toplevels().elements[i],
            s.elements[i],
            s.windows[s.elements[i].window].max_size,
            s.windows[s.elements[i].window].geometry.size,
            s.outputs[0].zone,
        ),
{
    let zone = s.outputs[0].zone;
    let n = s.elements.len() as int;
    let ws = space::windows_of(s.elements);
    lemma_reflow_plain(s, zone, n);
    assert(ws.take(n) =~= ws);
    lemma_zone_loc(s, s.elements[i].window, zone);
}

/// The stack once the first `k` of its windows, none of them a dialog, have been placed anew.
proof fn lemma_reflow_plain(s: StateView, zone: Rect, k: int)
    requires
        s.wf(),
        forall|i: int|
            0 <= i < s.elements.len() ==> s.windows[(#[trigger] s.elements[i]).window].parent
                is None,
        0 <= k <= s.elements.len(),
    ensures
        ({
            let t = s.reflow_windows(space::windows_of(s.elements).take(k), zone);
            &&& t == (StateView { elements: t.elements, commands: t.commands, ..s })
            &&& t.elements.len() == s.elements.len()
            &&& forall|i: int|
                0 <= i < s.elements.len() ==> #[trigger] t.elements[i] == if i < k {
                    Element {
                        window: s.elements[i].window,
                        loc: s.zone_loc(s.elements[i].window, zone),
                    }
                } else {
                    s.elements[i]
                }
        }),
    decreases k,
{
    let ws = space::windows_of(s.elements);
    if k > 0 {
        lemma_reflow_plain(s, zone, k - 1);
        let a = s.reflow_windows(ws.take(k - 1), zone);
        let w = s.elements[k - 1].window;
        assert(ws.take(k).drop_last() =~= ws.take(k - 1));
        assert(ws.take(k).last() == w);
        assert forall|i: int| 0 <= i < a.elements.len() implies (#[trigger] a.elements[i]).window
            == s.elements[i].window by {}
        assert(space::distinct(a.elements));
        lemma_level(a.elements, k - 1);
        assert(space::stacked(s.elements, w)) by {
            assert(s.elements[k - 1].window == w);
        }
        assert(s.windows.contains_key(w));
        if s.windows[w].initial_configure_sent {
            assert(Window { initial_configure_sent: true, ..s.windows[w] } == s.windows[w]);
            assert(s.windows.insert(w, s.windows[w]) =~= s.windows);
        }
    } else {
        assert(ws.take(0) =~= Seq::empty());
    }
}

/// Placing the windows anew goes from the bottom up, window by window: a dialog is centered; a window
/// that can fill the zone is proposed its size, sent the proposal if it was configured before, and
/// moved to the corner of the zone; any other window is moved to the middle of the zone.
pub proof fn law_reflow_goes_window_by_window(
    s: StateView,
    below: Seq<u64>,
    w: u64,
    zone: Rect,
)
    requires
        s.windows.contains_key(w),
        forall|i: int| 0 <= i < below.len() ==> s.windows.contains_key(#[trigger] below[i]),
        s.windows[w].parent is None ==> placement_laws::center_in_range(
            s.windows[w].geometry.size,
            zone,
        ),
    ensures
        ({
            let a = s.reflow_windows(below, zone);
            let b = s.reflow_windows(below.push(w), zone);
            let n = a.commands.len() as int;
            let fills = arrangement::can_fill(s.windows[w].max_size, zone.size);
            &&& s.windows[w].parent is Some ==> b == a.center_child(w)
            &&& s.windows[w].parent is None && fills ==> b == (StateView {
                elements: space::relocated(a.elements, w, zone.loc),
                commands: a.commands + seq![
                    Command::SetPending {
                        window: w,
                        change: PendingChange {
                            size: SizeChange::To(zone.size),
                            bounds: None,
                            maximized: None,
                            fullscreen: None,
                            activated: None,
                        },
                    },
                ] + (if s.windows[w].initial_configure_sent {
                    seq![Command::SendPendingConfigure { window: w }]
                } else {
                    Seq::empty()
                }) + seq![Command::RelocateWindow { window: w, loc: zone.loc }],
                ..a
            })
            &&& s.windows[w].parent is None && !fills ==> {
                let loc = b.commands[n]->RelocateWindow_loc;
                &&& arrangement::centered_in(loc, s.windows[w].geometry.size, zone)
                &&& b == (StateView {
                    elements: space::relocated(a.elements, w, loc),
                    commands: a.commands.push(Command::RelocateWindow { window: w, loc }),
                    ..a
                })
            }
        }),
        s.outputs.len() > 0 && zone == s.outputs[0].zone ==> s.reflow_toplevels()
            == s.reflow_windows(Seq::new(s.elements.len(), |i: int| s.elements[i].window), zone),
        s.reflow_windows(Seq::empty(), zone) == s,
{
    let a = s.reflow_windows(below, zone);
    let b = s.reflow_windows(below.push(w), zone);
    assert(below.push(w).drop_last() =~= below);
    assert(below.push(w).last() == w);
    lemma_reflow_scope(s, below, zone);
    assert(a.windows == s.windows);
    if s.windows[w].initial_configure_sent {
        assert(Window { initial_configure_sent: true, ..s.windows[w] } == s.windows[w]);
        assert(s.windows.insert(w, s.windows[w]) =~= s.windows);
    }
    law_filling(s.windows[w].max_size, zone.size);
    if s.windows[w].parent is None {
        lemma_zone_loc(s, w, zone);
        if arrangement::can_fill(s.windows[w].max_size, zone.size) {
            assert(b.commands =~= a.commands + seq![
                Command::SetPending { window: w, change: PendingChange::sized(zone.size) },
            ] + (if s.windows[w].initial_configure_sent {
                seq![Command::SendPendingConfigure { window: w }]
            } else {
                Seq::empty()
            }) + seq![Command::RelocateWindow { window: w, loc: zone.loc }]);
        }
    }
    assert(space::windows_of(s.elements) =~= Seq::new(
        s.elements.len(),
        |i: int| s.elements[i].window,
    ));
}

} // verus!
