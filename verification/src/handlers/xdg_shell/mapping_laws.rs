//! What a toplevel becomes with its first commit.

use vstd::prelude::*;
use crate::arrangement;
use crate::arrangement::{lemma_lies, lemma_others};
use crate::command::Command;
use crate::geometry::{Point, Rect};
use crate::handlers::xdg_shell::laws::{
    lemma_raised_on_top, lemma_same_fullscreen, lemma_topmost_without,
};
use crate::handlers::xdg_shell::placement_laws;
use crate::handlers::xdg_shell::placement_laws::{
    law_centered_dialog_hangs_on_parent, lemma_zone_loc,
};
use crate::space;
use crate::space::{lemma_level, lemma_mapped_below, lemma_moves};
use crate::state::{lemma_topmost_fullscreen, StateView};
use crate::toplevel::{PendingChange, SizeChange, WindowKind, WindowMode, WindowState};

verus! {

/// Whether the client of `w` told neither a parent nor a title nor an application id.
pub open spec fn nameless_orphan(s: StateView, w: u64) -> bool {
    s.windows[w].parent is None && s.windows[w].title@ == Seq::<char>::empty()
        && s.windows[w].app_id@ == Seq::<char>::empty()
}

/// Whether `w` is to fill the area left for windows.
pub open spec fn opens_maximized(s: StateView, w: u64) -> bool {
    s.windows[w].parent is None && (s.outputs.len() > 0 ==> arrangement::can_fill(
        s.windows[w].max_size,
        s.outputs[0].zone.size,
    ))
}

/// `v` moved by `d`, but not beyond the coordinate range.
pub open spec fn moved(v: int, d: int) -> int {
    if v + d > i32::MAX {
        i32::MAX as int
    } else {
        v + d
    }
}

/// Whether some window of the stack other than `w` is fullscreen.
pub open spec fn hidden_by_fullscreen(s: StateView, w: u64) -> bool {
    exists|v: u64| v != w && #[trigger] arrangement::shown_fullscreen(s, v)
}

/// Which windows are fullscreen decides whether there is a topmost one.
pub(crate) proof fn lemma_fullscreen_shown(s: StateView)
    requires
        s.wf(),
    ensures
        s.active_fullscreen_window() is None <==> arrangement::nothing_fullscreen(s),
        s.active_fullscreen_window() matches Some(f) ==> arrangement::shown_fullscreen(s, f),
{
    lemma_topmost_fullscreen(s.elements, s.toplevels);
    if s.active_fullscreen_window() is None {
        assert forall|w: u64| !#[trigger] arrangement::shown_fullscreen(s, w) by {
            if arrangement::shown_fullscreen(s, w) {
                let i = choose|i: int|
                    0 <= i < s.elements.len() && (#[trigger] s.elements[i]).window == w;
                assert(s.elements[i].window == w);
            }
        }
    } else {
        assert(arrangement::shown_fullscreen(s, s.active_fullscreen_window()->0));
    }
}

/// Where the stack is and who is focused once `w` has been stacked.
pub(crate) proof fn lemma_stacked(s: StateView, w: u64, serial: u32)
    requires
        s.wf(),
        s.toplevels.contains_key(w),
        !arrangement::present(s.elements, w),
    ensures
        ({
            let t = s.stack_toplevel(w, serial);
            let hidden = hidden_by_fullscreen(s, w);
            &&& t.wf()
            &&& arrangement::others(t.elements, w) == s.elements
            &&& arrangement::lies_at(t.elements, w, s.mapped_loc(w))
            &&& !hidden ==> t.elements.last().window == w
            &&& hidden ==> exists|i: int|
                0 <= i < t.elements.len() - 1 && (#[trigger] t.elements[i]).window == w
                    && arrangement::shown_fullscreen(s, t.elements[i + 1].window)
            &&& t.active_window == if hidden {
                s.active_window
            } else {
                Some(w)
            }
            &&& t.layer_shell_on_demand_focus == if hidden {
                s.layer_shell_on_demand_focus
            } else {
                None
            }
            &&& t.toplevels == s.toplevels.insert(
                w,
                WindowState { mapped: true, ..s.mapped_state(w) },
            )
            &&& t.windows == s.windows.insert(
                w,
                crate::toplevel::Window { initial_configure_sent: true, ..s.windows[w] },
            )
            &&& t.outputs == s.outputs
        }),
{
    lemma_lies(s.elements);
    let loc = s.mapped_loc(w);
    let s1 = s.propose_mapping(w);
    let t = s.stack_toplevel(w, serial);
    lemma_fullscreen_shown(s);
    lemma_topmost_fullscreen(s.elements, s.toplevels);
    assert(s1.toplevels.remove(w) =~= s.toplevels.remove(w));
    lemma_same_fullscreen(s.elements, s.toplevels, s1.toplevels, w);
    let hidden = hidden_by_fullscreen(s, w);
    assert(hidden <==> s.active_fullscreen_window() is Some) by {
        if s.active_fullscreen_window() is Some {
            assert(arrangement::shown_fullscreen(s, s.active_fullscreen_window()->0));
        }
    }
    assert(t.windows.dom() =~= s.windows.dom());
    match s.active_fullscreen_window() {
        Some(front) => {
            let s2 = s1.map_below(w, loc, front);
            lemma_mapped_below(s.elements, w, loc, front);
            lemma_topmost_without(s2.elements, s2.toplevels, w);
            assert(s2.focus_window(w, serial) == s2);
            assert(t.elements == s2.elements);
            lemma_lies(t.elements);
            lemma_others(t.elements, w);
            let k = space::level(t.elements, w);
            assert(t.elements[k].window == w);
            assert(space::stacked(t.elements, front));
            assert(t.elements[space::level(t.elements, front)].window == front);
            assert(t.elements[k + 1].window == front);
            assert(t.elements[k].loc == loc);
        },
        None => {
            let s2 = s1.map_window(w, loc, true);
            lemma_moves(s.elements, w, loc);
            lemma_topmost_without(s2.elements, s2.toplevels, w);
            let m = s2.elements;
            let n = m.len() as int;
            assert(m[n - 1] == (crate::space::Element { window: w, loc }));
            lemma_level(m, n - 1);
            assert(space::unmapped(m, w) =~= s.elements);
            lemma_raised_on_top(m, w);
            assert(space::raised(m, w) =~= m);
            assert(t.elements == m);
            lemma_lies(m);
            lemma_others(m, w);
        },
    }
}

/// How `w` is treated and where it is after its first commit, if it is not kept as a tooltip.
proof fn lemma_opened(s: StateView, w: u64, pointer: Option<Point>, serial: u32)
    requires
        s.wf(),
        s.toplevels.contains_key(w),
        !s.toplevels[w].mapped,
        !arrangement::present(s.elements, w),
        !s.is_anonymous(w),
    ensures
        ({
            let t = s.toplevel_commit(w, pointer, serial);
            let m = s.map_toplevel(w, serial);
            &&& t.toplevels == m.toplevels
            &&& t.active_window == m.active_window
            &&& t.layer_shell_on_demand_focus == m.layer_shell_on_demand_focus
            &&& m.commands.is_prefix_of(t.commands)
            &&& s.windows[w].parent is Some ==> t.elements == m.center_child(w).elements
            &&& s.windows[w].parent is None ==> t.elements == if s.maximize_late(w) {
                space::relocated(
                    m.elements,
                    w,
                    s.zone()->0.centered_spec(s.windows[w].geometry),
                )
            } else {
                m.elements
            }
        }),
{
    reveal(StateView::toplevel_commit);
    lemma_stacked(s, w, serial);
    let m = s.map_toplevel(w, serial);
    let r = m.recheck_maximize(w);
    let t = s.toplevel_commit(w, pointer, serial);
    assert(t == r.center_child(w));
    assert(m.toplevels[w] == (WindowState { mapped: true, ..s.mapped_state(w) }));
    assert(r.toplevels =~= m.toplevels);
    assert(m.commands =~= t.commands.take(m.commands.len() as int));
}

impl StateView {
    /// Whether `w` cannot fill the zone though its client committed it as maximized.
    spec fn maximize_late(self, w: u64) -> bool {
        &&& self.zone() is Some
        &&& !self.windows[w].max_size.fills_spec(self.zone()->0.size)
        &&& self.windows[w].committed_maximized
    }
}

/// A toplevel is kept as a tooltip by its first commit just if its client told neither a parent nor
/// a title nor an application id. Otherwise it is stacked from then on, as a dialog if it has a
/// parent, and maximized just if it has none and its maximum size lets it fill the zone.
pub proof fn law_first_commit_decides_kind(
    s: StateView,
    w: u64,
    pointer: Option<Point>,
    serial: u32,
)
    requires
        s.wf(),
        s.toplevels.contains_key(w),
        !s.toplevels[w].mapped,
        !arrangement::present(s.elements, w),
    ensures
        ({
            let t = s.toplevel_commit(w, pointer, serial);
            &&& t.toplevels.contains_key(w)
            &&& t.toplevels[w].mapped
            &&& t.toplevels.remove(w) == s.toplevels.remove(w)
            &&& t.toplevels[w].modal == s.toplevels[w].modal
            &&& t.toplevels[w].kind is Transient <==> nameless_orphan(s, w)
            &&& arrangement::present(t.elements, w) <==> !nameless_orphan(s, w)
            &&& t.toplevels[w].kind == WindowKind::Dialog <==> s.windows[w].parent is Some
            &&& t.toplevels[w].mode == if !nameless_orphan(s, w) && opens_maximized(s, w) {
                WindowMode::Maximized
            } else {
                WindowMode::Floating
            }
        }),
{
    reveal(StateView::toplevel_commit);
    let t = s.toplevel_commit(w, pointer, serial);
    assert(s.is_anonymous(w) <==> nameless_orphan(s, w)) by {
        if s.is_anonymous(w) {
            assert(s.windows[w].title@ =~= Seq::<char>::empty());
            assert(s.windows[w].app_id@ =~= Seq::<char>::empty());
        }
    }
    lemma_lies(s.elements);
    if s.is_anonymous(w) {
        assert(t.toplevels.remove(w) =~= s.toplevels.remove(w));
    } else {
        lemma_stacked(s, w, serial);
        lemma_opened(s, w, pointer, serial);
        let m = s.map_toplevel(w, serial);
        let st = s.stack_toplevel(w, serial);
        lemma_lies(st.elements);
        lemma_centers(st, w);
        lemma_centers(m, w);
        lemma_lies(m.elements);
        if let Some(zone) = s.zone() {
            lemma_moves(m.elements, w, zone.centered_spec(s.windows[w].geometry));
        }
        assert(space::stacked(m.elements, w));
        assert(space::stacked(t.elements, w));
        assert(arrangement::present(t.elements, w)) by {
            let i = space::level(t.elements, w);
            assert(t.elements[i].window == w);
        }
        assert(t.toplevels.remove(w) =~= s.toplevels.remove(w));
    }
}

/// Centering keeps the stack in order and the windows in it.
pub(crate) proof fn lemma_centers(s: StateView, w: u64)
    requires
        space::distinct(s.elements),
    ensures
        space::distinct(s.center_child(w).elements),
        forall|v: u64|
            #[trigger] space::stacked(s.center_child(w).elements, v) <==> space::stacked(
                s.elements,
                v,
            ),
{
    if s.has_stacked_parent(w) {
        let p = s.windows[w].parent->0;
        let loc = s.element_geometry(p).child_spec(s.windows[w].geometry.size);
        lemma_moves(s.elements, w, loc);
        crate::space::lemma_raised_above(space::relocated(s.elements, w, loc), w, p);
    }
}

/// A tooltip floats beside the pointer, or in the corner of the plane if there is none. It is told to
/// pick its size, and nothing else changes: it is not stacked, and no one gets or loses the focus.
pub proof fn law_tooltip_floats_beside_pointer(
    s: StateView,
    w: u64,
    pointer: Option<Point>,
    serial: u32,
)
    requires
        s.toplevels.contains_key(w),
        !s.toplevels[w].mapped,
        nameless_orphan(s, w),
    ensures
        ({
            let t = s.toplevel_commit(w, pointer, serial);
            let at = t.toplevels[w].kind->Transient_0;
            &&& t.toplevels[w].kind is Transient
            &&& pointer matches Some(p) ==> at.x == moved(p.x as int, 12) && at.y == moved(
                p.y as int,
                24,
            )
            &&& pointer is None ==> at.x == 0 && at.y == 0
            &&& t == (StateView {
                toplevels: t.toplevels,
                windows: t.windows,
                commands: s.commands + seq![
                    Command::SetPending {
                        window: w,
                        change: PendingChange {
                            size: SizeChange::Clear,
                            bounds: None,
                            maximized: Some(false),
                            fullscreen: Some(false),
                            activated: None,
                        },
                    },
                    Command::SendConfigure { window: w },
                ],
                ..s
            })
            &&& t.windows == s.windows.insert(
                w,
                crate::toplevel::Window { initial_configure_sent: true, ..s.windows[w] },
            )
        }),
{
    reveal(StateView::toplevel_commit);
    assert(s.is_anonymous(w));
}

/// A parentless window opens at the corner of the zone if it can fill it, else in the middle of it,
/// and in the corner of the plane without an output. The other windows stay where they are. It opens
/// on top; only below a fullscreen window it opens directly below that one.
pub proof fn law_window_opens_in_zone(s: StateView, w: u64, pointer: Option<Point>, serial: u32)
    requires
        s.wf(),
        s.toplevels.contains_key(w),
        !s.toplevels[w].mapped,
        !arrangement::present(s.elements, w),
        !nameless_orphan(s, w),
        s.windows[w].parent is None,
        s.outputs.len() > 0 ==> placement_laws::center_in_range(
            s.windows[w].geometry.size,
            s.outputs[0].zone,
        ),
    ensures
        ({
            let t = s.toplevel_commit(w, pointer, serial);
            let zone = s.outputs[0].zone;
            &&& arrangement::present(t.elements, w)
            &&& arrangement::others(t.elements, w) == s.elements
            &&& s.outputs.len() == 0 ==> arrangement::lies_at(t.elements, w, Point { x: 0, y: 0 })
            &&& s.outputs.len() > 0 && opens_maximized(s, w) ==> arrangement::lies_at(
                t.elements,
                w,
                zone.loc,
            )
            &&& s.outputs.len() > 0 && !opens_maximized(s, w) ==> forall|i: int|
                0 <= i < t.elements.len() && (#[trigger] t.elements[i]).window == w
                    ==> arrangement::centered_in(t.elements[i].loc, s.windows[w].geometry.size, zone)
            &&& !hidden_by_fullscreen(s, w) ==> t.elements.last().window == w
            &&& hidden_by_fullscreen(s, w) ==> exists|i: int|
                0 <= i < t.elements.len() - 1 && (#[trigger] t.elements[i]).window == w
                    && arrangement::shown_fullscreen(s, t.elements[i + 1].window)
        }),
{
    lemma_lies(s.elements);
    assert(!s.is_anonymous(w)) by {
        if s.is_anonymous(w) {
            assert(s.windows[w].title@ =~= Seq::<char>::empty());
            assert(s.windows[w].app_id@ =~= Seq::<char>::empty());
        }
    }
    lemma_stacked(s, w, serial);
    lemma_opened(s, w, pointer, serial);
    let m = s.map_toplevel(w, serial);
    let t = s.toplevel_commit(w, pointer, serial);
    assert(m == s.stack_toplevel(w, serial));
    lemma_lies(m.elements);
    lemma_others(m.elements, w);
    if let Some(zone) = s.zone() {
        lemma_zone_loc(s, w, zone);
        let loc = zone.centered_spec(s.windows[w].geometry);
        if s.maximize_late(w) {
            let l = space::level(m.elements, w);
            assert(m.elements[l].window == w && m.elements[l].loc == loc);
            assert(t.elements =~= m.elements);
        }
    }
    assert(t.elements == m.elements);
}

/// A dialog opens over the middle of its parent and above it, whatever the parent of its parent is,
/// and the other windows stay where they are.
pub proof fn law_dialog_opens_on_parent(
    s: StateView,
    w: u64,
    p: u64,
    at: Point,
    pointer: Option<Point>,
    serial: u32,
)
    requires
        s.wf(),
        s.toplevels.contains_key(w),
        !s.toplevels[w].mapped,
        !arrangement::present(s.elements, w),
        s.windows[w].parent == Some(p),
        arrangement::lies_at(s.elements, p, at),
        placement_laws::middle_in_range(
            s.windows[w].geometry.size,
            Rect { loc: at, size: s.windows[p].geometry.size },
        ),
    ensures
        placement_laws::hangs_on(s, s.toplevel_commit(w, pointer, serial).elements, w, p, at),
        arrangement::others(s.toplevel_commit(w, pointer, serial).elements, w) == s.elements,
{
    lemma_lies(s.elements);
    lemma_stacked(s, w, serial);
    lemma_opened(s, w, pointer, serial);
    let st = s.stack_toplevel(w, serial);
    let m = s.map_toplevel(w, serial);
    let t = s.toplevel_commit(w, pointer, serial);
    assert(p != w);
    lemma_lies(st.elements);
    assert(arrangement::lies_at(st.elements, p, at)) by {
        lemma_others(st.elements, w);
        lemma_unmapped_keeps(st.elements, w, p);
    }
    assert(st.windows[p].geometry == s.windows[p].geometry);
    law_centered_dialog_hangs_on_parent(st, w, p, at);
    lemma_centers(st, w);
    assert(m == st.center_child(w));
    lemma_lies(m.elements);
    assert(arrangement::lies_at(m.elements, p, at));
    assert(m.wf());
    law_centered_dialog_hangs_on_parent(m, w, p, at);
    assert(t.elements == m.center_child(w).elements);
}

/// Taking one window out of the stack leaves the others where they are.
pub(crate) proof fn lemma_unmapped_keeps(es: Seq<crate::space::Element>, w: u64, v: u64)
    requires
        space::distinct(es),
        v != w,
        space::stacked(space::unmapped(es, w), v),
    ensures
        space::stacked(es, v),
        space::loc_of(es, v) == space::loc_of(space::unmapped(es, w), v),
{
    let u = space::unmapped(es, w);
    lemma_moves(es, w, Point { x: 0, y: 0 });
    let i = space::level(u, v);
    assert(u[i].window == v);
    if space::stacked(es, w) {
        let l = space::level(es, w);
        let k = if i < l {
            i
        } else {
            i + 1
        };
        assert(es[k] == u[i]);
        lemma_level(es, k);
    }
}

/// Whether the commands that `t` has and `s` has not tell `w` what a window that opens is told: the
/// size of the zone and that it is maximized if it fills it, else that it may pick a size in it.
pub open spec fn told_on_opening(s: StateView, t: StateView, w: u64) -> bool {
    exists|k: int|
        s.commands.len() <= k < t.commands.len() && #[trigger] t.commands[k] == (
        Command::SetPending {
            window: w,
            change: if opens_maximized(s, w) {
                PendingChange {
                    size: SizeChange::To(s.outputs[0].zone.size),
                    bounds: None,
                    maximized: Some(true),
                    fullscreen: None,
                    activated: None,
                }
            } else {
                PendingChange {
                    size: SizeChange::Clear,
                    bounds: Some(s.outputs[0].zone.size),
                    maximized: Some(false),
                    fullscreen: None,
                    activated: None,
                }
            },
        })
}

/// With its first commit a window on an output is proposed to fill the zone, or to pick its size in
/// it, and every window that is not kept as a tooltip is sent a configure.
pub proof fn law_opening_window_is_configured(
    s: StateView,
    w: u64,
    pointer: Option<Point>,
    serial: u32,
)
    requires
        s.wf(),
        s.toplevels.contains_key(w),
        !s.toplevels[w].mapped,
        !arrangement::present(s.elements, w),
        !nameless_orphan(s, w),
    ensures
        ({
            let t = s.toplevel_commit(w, pointer, serial);
            &&& s.commands.is_prefix_of(t.commands)
            &&& s.windows[w].parent is None && s.outputs.len() > 0 ==> told_on_opening(s, t, w)
            &&& exists|k: int|
                s.commands.len() <= k < t.commands.len() && #[trigger] t.commands[k] == (
                Command::SendConfigure { window: w })
        }),
{
    lemma_lies(s.elements);
    assert(!s.is_anonymous(w)) by {
        if s.is_anonymous(w) {
            assert(s.windows[w].title@ =~= Seq::<char>::empty());
            assert(s.windows[w].app_id@ =~= Seq::<char>::empty());
        }
    }
    lemma_opened(s, w, pointer, serial);
    let n = s.commands.len() as int;
    let s1 = s.propose_mapping(w);
    let s2 = s1.map_below_fullscreen(w, s.mapped_loc(w));
    let s3 = s2.focus_window(w, serial);
    let st = s.stack_toplevel(w, serial);
    let m = s.map_toplevel(w, serial);
    let t = s.toplevel_commit(w, pointer, serial);
    assert(s1.commands =~= s3.commands.take(s1.commands.len() as int));
    assert(s3.commands =~= st.commands.take(s3.commands.len() as int));
    assert(st.commands =~= m.commands.take(st.commands.len() as int));
    assert(forall|k: int| 0 <= k < m.commands.len() ==> #[trigger] t.commands[k] == m.commands[k]);
    assert(forall|k: int| 0 <= k < st.commands.len() ==> #[trigger] m.commands[k] == st.commands[k]);
    assert(forall|k: int| 0 <= k < s3.commands.len() ==> #[trigger] st.commands[k] == s3.commands[k]);
    assert(forall|k: int| 0 <= k < s1.commands.len() ==> #[trigger] s3.commands[k] == s1.commands[k]);
    assert(s.commands =~= t.commands.take(n));
    let at = st.commands.len() - 1;
    assert(st.commands[at] == (Command::SendConfigure { window: w }));
    assert(t.commands[at] == (Command::SendConfigure { window: w }));
    if s.windows[w].parent is None && s.outputs.len() > 0 {
        assert(s1.commands[n] is SetPending);
        assert(t.commands[n] == s1.commands[n]);
    }
}

/// A window that opens gets the focus unless a fullscreen window is in front; then the focus stays
/// where it is.
pub proof fn law_opening_window_gets_focus(
    s: StateView,
    w: u64,
    pointer: Option<Point>,
    serial: u32,
)
    requires
        s.wf(),
        s.toplevels.contains_key(w),
        !s.toplevels[w].mapped,
        !arrangement::present(s.elements, w),
        !nameless_orphan(s, w),
    ensures
        ({
            let t = s.toplevel_commit(w, pointer, serial);
            &&& !hidden_by_fullscreen(s, w) ==> t.active_window == Some(w)
                && t.layer_shell_on_demand_focus is None && exists|k: int|
                s.commands.len() <= k < t.commands.len() && #[trigger] t.commands[k] == (
                Command::SetKeyboardFocus { focus: Some(w), serial })
            &&& hidden_by_fullscreen(s, w) ==> t.active_window == s.active_window
                && t.layer_shell_on_demand_focus == s.layer_shell_on_demand_focus && forall|k: int|
                s.commands.len() <= k < t.commands.len() ==> !(
                #[trigger] t.commands[k] is SetKeyboardFocus)
        }),
{
    reveal(StateView::toplevel_commit);
    lemma_lies(s.elements);
    assert(!s.is_anonymous(w)) by {
        if s.is_anonymous(w) {
            assert(s.windows[w].title@ =~= Seq::<char>::empty());
            assert(s.windows[w].app_id@ =~= Seq::<char>::empty());
        }
    }
    lemma_stacked(s, w, serial);
    lemma_opened(s, w, pointer, serial);
    let s1 = s.propose_mapping(w);
    let s2 = s1.map_below_fullscreen(w, s.mapped_loc(w));
    let s3 = s2.focus_window(w, serial);
    let st = s.stack_toplevel(w, serial);
    let m = s.map_toplevel(w, serial);
    let t = s.toplevel_commit(w, pointer, serial);
    assert(forall|k: int| 0 <= k < m.commands.len() ==> #[trigger] t.commands[k] == m.commands[k]);
    if hidden_by_fullscreen(s, w) {
        assert(s3 == s2) by {
            if s3 != s2 {
                assert(!s2.focus_refused(w));
                assert(s3.active_window == Some(w));
                lemma_hidden_refuses(s, w);
            }
        }
    } else {
        let at = s3.commands.len() - 1;
        assert(!s2.focus_refused(w)) by {
            lemma_shown_grants(s, w);
        }
        assert(s3.commands[at] == (Command::SetKeyboardFocus { focus: Some(w), serial }));
        assert(st.commands[at] == s3.commands[at]);
        assert(m.commands[at] == st.commands[at]);
        assert(t.commands[at] == m.commands[at]);
    }
}

/// A fullscreen window in front keeps a new window from the focus.
proof fn lemma_hidden_refuses(s: StateView, w: u64)
    requires
        s.wf(),
        !arrangement::present(s.elements, w),
        hidden_by_fullscreen(s, w),
    ensures
        s.propose_mapping(w).map_below_fullscreen(w, s.mapped_loc(w)).focus_refused(w),
{
    lemma_lies(s.elements);
    lemma_fullscreen_shown(s);
    let s1 = s.propose_mapping(w);
    assert(s1.toplevels.remove(w) =~= s.toplevels.remove(w));
    lemma_same_fullscreen(s.elements, s.toplevels, s1.toplevels, w);
    let front = s.active_fullscreen_window()->0;
    let s2 = s1.map_below(w, s.mapped_loc(w), front);
    lemma_mapped_below(s.elements, w, s.mapped_loc(w), front);
    lemma_topmost_without(s2.elements, s2.toplevels, w);
}

/// Where no other window is fullscreen, a new window can get the focus.
proof fn lemma_shown_grants(s: StateView, w: u64)
    requires
        s.wf(),
        !arrangement::present(s.elements, w),
        !hidden_by_fullscreen(s, w),
    ensures
        !s.propose_mapping(w).map_below_fullscreen(w, s.mapped_loc(w)).focus_refused(w),
{
    lemma_lies(s.elements);
    lemma_fullscreen_shown(s);
    let s1 = s.propose_mapping(w);
    assert(s1.toplevels.remove(w) =~= s.toplevels.remove(w));
    lemma_same_fullscreen(s.elements, s.toplevels, s1.toplevels, w);
    let s2 = s1.map_window(w, s.mapped_loc(w), true);
    lemma_moves(s.elements, w, s.mapped_loc(w));
    lemma_topmost_without(s2.elements, s2.toplevels, w);
    let m = s2.elements;
    let n = m.len() as int;
    lemma_level(m, n - 1);
    assert(space::unmapped(m, w) =~= s.elements);
}

/// A window that opens is proposed its size first, if it has no parent and there is an output, and
/// then stacked: on top and activated, and raised once more before it gets the focus, or without
/// activation directly below a fullscreen window, in which case it is configured at once.
pub proof fn law_opening_goes_in_order(
    s: StateView,
    w: u64,
    pointer: Option<Point>,
    serial: u32,
)
    requires
        s.wf(),
        s.toplevels.contains_key(w),
        !s.toplevels[w].mapped,
        !arrangement::present(s.elements, w),
        !nameless_orphan(s, w),
    ensures
        ({
            let t = s.toplevel_commit(w, pointer, serial);
            let n = s.commands.len() as int;
            let k = if s.windows[w].parent is None && s.outputs.len() > 0 {
                n + 1
            } else {
                n
            };
            &&& t.commands.len() > k + 1
            &&& k == n + 1 ==> (t.commands[n] is SetPending) && t.commands[n]->SetPending_window
                == w
            &&& !hidden_by_fullscreen(s, w) ==> {
                &&& t.commands[k] is MapWindow
                &&& t.commands[k]->MapWindow_window == w
                &&& t.commands[k]->MapWindow_activate
                &&& t.commands[k + 1] == (Command::RaiseWindow { window: w, activate: true })
            }
            &&& hidden_by_fullscreen(s, w) ==> {
                &&& t.commands[k] is MapBelow
                &&& t.commands[k]->MapBelow_window == w
                &&& arrangement::shown_fullscreen(s, t.commands[k]->MapBelow_reference)
                &&& t.commands[k + 1] == (Command::SendConfigure { window: w })
            }
        }),
{
    lemma_lies(s.elements);
    assert(!s.is_anonymous(w)) by {
        if s.is_anonymous(w) {
            assert(s.windows[w].title@ =~= Seq::<char>::empty());
            assert(s.windows[w].app_id@ =~= Seq::<char>::empty());
        }
    }
    lemma_opened(s, w, pointer, serial);
    let s1 = s.propose_mapping(w);
    let s2 = s1.map_below_fullscreen(w, s.mapped_loc(w));
    let s3 = s2.focus_window(w, serial);
    let st = s.stack_toplevel(w, serial);
    let m = s.map_toplevel(w, serial);
    let t = s.toplevel_commit(w, pointer, serial);
    let k = s1.commands.len() as int;
    assert(forall|i: int| 0 <= i < m.commands.len() ==> #[trigger] t.commands[i] == m.commands[i]);
    assert(forall|i: int| 0 <= i < st.commands.len() ==> #[trigger] m.commands[i] == st.commands[i]);
    lemma_fullscreen_shown(s);
    lemma_topmost_fullscreen(s.elements, s.toplevels);
    assert(s1.toplevels.remove(w) =~= s.toplevels.remove(w));
    lemma_same_fullscreen(s.elements, s.toplevels, s1.toplevels, w);
    match s.active_fullscreen_window() {
        Some(front) => {
            assert(arrangement::shown_fullscreen(s, front));
            assert(front != w);
            lemma_hidden_refuses(s, w);
            assert(s3 == s2);
            assert(st.commands[k] == (Command::MapBelow {
                window: w,
                loc: s.mapped_loc(w),
                reference: front,
            }));
            assert(st.commands[k + 1] == (Command::SendConfigure { window: w }));
        },
        None => {
            assert(!hidden_by_fullscreen(s, w));
            lemma_shown_grants(s, w);
            assert(st.commands[k] == (Command::MapWindow {
                window: w,
                loc: s.mapped_loc(w),
                activate: true,
            }));
            assert(s3.commands[k + 1] == (Command::RaiseWindow { window: w, activate: true }));
            assert(st.commands[k + 1] == s3.commands[k + 1]);
        },
    }
    assert(t.commands[k] == st.commands[k]);
    assert(t.commands[k + 1] == st.commands[k + 1]);
    if s.windows[w].parent is None && s.outputs.len() > 0 {
        assert(t.commands[k - 1] == st.commands[k - 1]);
    }
}

/// A window that opens on top is focused as any window is once it has been mapped, and configured
/// then.
pub proof fn law_opening_focuses(s: StateView, w: u64, pointer: Option<Point>, serial: u32)
    requires
        s.wf(),
        s.toplevels.contains_key(w),
        !s.toplevels[w].mapped,
        !arrangement::present(s.elements, w),
        !nameless_orphan(s, w),
        !hidden_by_fullscreen(s, w),
    ensures
        ({
            let t = s.toplevel_commit(w, pointer, serial);
            let k = s.commands.len() as int + if s.windows[w].parent is None && s.outputs.len()
                > 0 {
                1int
            } else {
                0int
            };
            let mapped = StateView {
                elements: space::mapped(s.elements, w, t.commands[k]->MapWindow_loc),
                commands: t.commands.take(k + 1),
                ..s
            };
            mapped.focus_window(w, serial).commands.push(
                Command::SendConfigure { window: w },
            ).is_prefix_of(t.commands)
        }),
{
    law_opening_goes_in_order(s, w, pointer, serial);
    lemma_lies(s.elements);
    assert(!s.is_anonymous(w)) by {
        if s.is_anonymous(w) {
            assert(s.windows[w].title@ =~= Seq::<char>::empty());
            assert(s.windows[w].app_id@ =~= Seq::<char>::empty());
        }
    }
    lemma_opened(s, w, pointer, serial);
    let loc = s.mapped_loc(w);
    let s1 = s.propose_mapping(w);
    let s2 = s1.map_below_fullscreen(w, loc);
    let st = s.stack_toplevel(w, serial);
    let m = s.map_toplevel(w, serial);
    let t = s.toplevel_commit(w, pointer, serial);
    let k = s1.commands.len() as int;
    lemma_shown_grants(s, w);
    lemma_fullscreen_shown(s);
    assert(s.active_fullscreen_window() is None) by {
        if s.active_fullscreen_window() is Some {
            lemma_topmost_fullscreen(s.elements, s.toplevels);
            let f = s.active_fullscreen_window()->0;
            assert(arrangement::shown_fullscreen(s, f));
        }
    }
    assert(s1.toplevels.remove(w) =~= s.toplevels.remove(w));
    lemma_same_fullscreen(s.elements, s.toplevels, s1.toplevels, w);
    assert(s2 == s1.map_window(w, loc, true));
    assert(forall|i: int| 0 <= i < m.commands.len() ==> #[trigger] t.commands[i] == m.commands[i]);
    assert(forall|i: int| 0 <= i < st.commands.len() ==> #[trigger] m.commands[i] == st.commands[i]);
    assert(st.commands[k] == (Command::MapWindow { window: w, loc, activate: true }));
    assert(t.commands[k] == st.commands[k]);
    let mapped = StateView {
        elements: space::mapped(s.elements, w, loc),
        commands: t.commands.take(k + 1),
        ..s
    };
    assert(mapped.commands =~= s2.commands) by {
        assert forall|i: int| 0 <= i < k + 1 implies #[trigger] t.commands[i] == s2.commands[i] by {
            assert(st.commands[i] == s2.commands[i]);
        }
    }
    assert(!mapped.focus_refused(w)) by {
        lemma_topmost_fullscreen(mapped.elements, mapped.toplevels);
        if let Some(f) = mapped.active_fullscreen_window() {
            lemma_moves(s.elements, w, loc);
            if f != w {
                assert(space::stacked(s.elements, f));
                assert(arrangement::shown_fullscreen(s, f));
            }
        }
    }
    assert(!s2.focus_refused(w)) by {
        lemma_topmost_fullscreen(s2.elements, s2.toplevels);
        if let Some(f) = s2.active_fullscreen_window() {
            lemma_moves(s.elements, w, loc);
            if f != w {
                assert(space::stacked(s.elements, f));
                assert(s.toplevels.remove(w).contains_key(f));
                assert(s1.toplevels.remove(w)[f] == s.toplevels.remove(w)[f]);
                assert(arrangement::shown_fullscreen(s, f));
            }
        }
    }
    let a = mapped.focus_window(w, serial).commands.push(Command::SendConfigure { window: w });
    assert(mapped.raise_window(w, true).pending_configures() == s2.raise_window(
        w,
        true,
    ).pending_configures());
    assert(a =~= st.commands);
    assert(a =~= t.commands.take(a.len() as int));
}

/// Whether a window that opens goes to `loc` first: the corner of the zone if it can fill it, else
/// the middle of the zone; a dialog, and a window without an output, the corner of the plane.
pub open spec fn opens_at(s: StateView, w: u64, loc: Point) -> bool {
    let zone = s.outputs[0].zone;
    if s.windows[w].parent is Some || s.outputs.len() == 0 {
        loc.x == 0 && loc.y == 0
    } else if arrangement::can_fill(s.windows[w].max_size, zone.size) {
        loc == zone.loc
    } else {
        arrangement::centered_in(loc, s.windows[w].geometry.size, zone)
    }
}

/// How a window that opens is treated.
pub open spec fn opened_as(s: StateView, w: u64, mapped: bool) -> WindowState {
    WindowState {
        kind: if s.windows[w].parent is Some {
            WindowKind::Dialog
        } else {
            WindowKind::Normal
        },
        mode: if opens_maximized(s, w) {
            WindowMode::Maximized
        } else {
            WindowMode::Floating
        },
        mapped,
        modal: s.toplevels[w].modal,
    }
}

/// What a window that opens is proposed.
pub open spec fn opening_proposal(s: StateView, w: u64) -> Seq<Command> {
    if s.windows[w].parent is None && s.outputs.len() > 0 {
        seq![
            Command::SetPending {
                window: w,
                change: if opens_maximized(s, w) {
                    PendingChange {
                        size: SizeChange::To(s.outputs[0].zone.size),
                        bounds: None,
                        maximized: Some(true),
                        fullscreen: None,
                        activated: None,
                    }
                } else {
                    PendingChange {
                        size: SizeChange::Clear,
                        bounds: Some(s.outputs[0].zone.size),
                        maximized: Some(false),
                        fullscreen: None,
                        activated: None,
                    }
                },
            },
        ]
    } else {
        Seq::empty()
    }
}

/// Opening a window, in steps: it is treated as what it is and proposed its size; it is mapped on
/// top, or directly below the topmost fullscreen window; it is focused as any window is; it counts as
/// mapped and is sent a configure; and a dialog is centered.
pub proof fn law_opening_in_steps(
    s: StateView,
    w: u64,
    loc: Point,
    front: u64,
    pointer: Option<Point>,
    serial: u32,
)
    requires
        s.wf(),
        s.toplevels.contains_key(w),
        s.toplevels[w].mode != WindowMode::Fullscreen || !arrangement::present(s.elements, w),
        !nameless_orphan(s, w),
        opens_at(s, w, loc),
        s.windows[w].parent is None && s.outputs.len() > 0 ==> placement_laws::center_in_range(
            s.windows[w].geometry.size,
            s.outputs[0].zone,
        ),
        arrangement::nothing_fullscreen(s) || {
            &&& arrangement::shown_fullscreen(s, front)
            &&& forall|v: u64|
                v != front && #[trigger] arrangement::shown_fullscreen(s, v) ==> arrangement::above(
                    s.elements,
                    front,
                    v,
                )
        },
    ensures
        ({
            let treated = StateView {
                toplevels: s.toplevels.insert(w, opened_as(s, w, s.toplevels[w].mapped)),
                commands: s.commands + opening_proposal(s, w),
                ..s
            };
            let stacked = if arrangement::nothing_fullscreen(s) {
                StateView {
                    elements: space::mapped(s.elements, w, loc),
                    commands: treated.commands.push(
                        Command::MapWindow { window: w, loc, activate: true },
                    ),
                    ..treated
                }
            } else {
                StateView {
                    elements: space::mapped_below(s.elements, w, loc, front),
                    commands: treated.commands.push(
                        Command::MapBelow { window: w, loc, reference: front },
                    ),
                    ..treated
                }
            };
            let focused = stacked.focus_window(w, serial);
            s.first_commit(w, pointer, serial) == (StateView {
                toplevels: s.toplevels.insert(w, opened_as(s, w, true)),
                windows: s.windows.insert(
                    w,
                    crate::toplevel::Window { initial_configure_sent: true, ..s.windows[w] },
                ),
                commands: focused.commands.push(Command::SendConfigure { window: w }),
                ..focused
            }).center_child(w)
        }),
{
    assert(!s.is_anonymous(w)) by {
        if s.is_anonymous(w) {
            assert(s.windows[w].title@ =~= Seq::<char>::empty());
            assert(s.windows[w].app_id@ =~= Seq::<char>::empty());
        }
    }
    if s.outputs.len() > 0 {
        crate::geometry_laws::law_filling(s.windows[w].max_size, s.outputs[0].zone.size);
    }
    let s1 = s.propose_mapping(w);
    let treated = StateView {
        toplevels: s.toplevels.insert(w, opened_as(s, w, s.toplevels[w].mapped)),
        commands: s.commands + opening_proposal(s, w),
        ..s
    };
    assert(s1.toplevels == treated.toplevels);
    assert(s1.commands =~= treated.commands);
    assert(s1 == treated);
    assert(loc == s.mapped_loc(w)) by {
        if s.windows[w].parent is None && s.outputs.len() > 0 {
            lemma_zone_loc(s, w, s.outputs[0].zone);
            let zone = s.outputs[0].zone;
            let there = s.mapped_loc(w);
            if !arrangement::can_fill(s.windows[w].max_size, zone.size) {
                assert(arrangement::centered_in(there, s.windows[w].geometry.size, zone));
            }
        }
    }
    lemma_front(s, w, front);
    let s2 = s1.map_below_fullscreen(w, loc);
    let focused = s2.focus_window(w, serial);
    assert(focused.toplevels == s1.toplevels);
    assert(focused.windows == s.windows);
    let done = focused.set_window_state(
        w,
        WindowState { mapped: true, ..focused.toplevels[w] },
    ).send_configure(w);
    assert(s.stack_toplevel(w, serial) == done);
    assert(done.toplevels =~= s.toplevels.insert(w, opened_as(s, w, true)));
}

/// The fullscreen window in front, once `w` is treated as a window that opens.
proof fn lemma_front(s: StateView, w: u64, front: u64)
    requires
        s.wf(),
        s.toplevels.contains_key(w),
        s.toplevels[w].mode != WindowMode::Fullscreen || !arrangement::present(s.elements, w),
        arrangement::nothing_fullscreen(s) || {
            &&& arrangement::shown_fullscreen(s, front)
            &&& forall|v: u64|
                v != front && #[trigger] arrangement::shown_fullscreen(s, v) ==> arrangement::above(
                    s.elements,
                    front,
                    v,
                )
        },
    ensures
        s.propose_mapping(w).active_fullscreen_window() == if arrangement::nothing_fullscreen(s) {
            None
        } else {
            Some(front)
        },
{
    let t = s.propose_mapping(w);
    assert(s.toplevels.remove(w) =~= t.toplevels.remove(w));
    assert(t.toplevels[w].mode != WindowMode::Fullscreen);
    lemma_topmost_fullscreen(t.elements, t.toplevels);
    match t.active_fullscreen_window() {
        Some(f) => {
            assert(f != w);
            assert(s.toplevels.remove(w)[f] == t.toplevels.remove(w)[f]);
            assert(s.toplevels.remove(w).contains_key(f) == t.toplevels.remove(w).contains_key(f));
            assert(arrangement::shown_fullscreen(s, f));
            if f != front {
                assert(arrangement::above(s.elements, front, f));
                let i = space::level(s.elements, front);
                assert(s.elements[i].window == front);
                assert(front != w);
                assert(s.toplevels.remove(w)[front] == t.toplevels.remove(w)[front]);
                assert(s.toplevels.remove(w).contains_key(front) == t.toplevels.remove(
                    w,
                ).contains_key(front));
                crate::handlers::xdg_shell::focus_laws::lemma_topmost_is_top(t.elements, t, i);
                let k = choose|k: int|
                    i <= k < t.elements.len() && (#[trigger] t.elements[k]).window == f;
                assert(s.elements[k].window == f);
            }
        },
        None => {
            assert forall|v: u64| !#[trigger] arrangement::shown_fullscreen(s, v) by {
                if arrangement::shown_fullscreen(s, v) {
                    let i = choose|i: int|
                        0 <= i < s.elements.len() && (#[trigger] s.elements[i]).window == v;
                    assert(t.elements[i].window == v);
                    assert(v != w);
                    assert(s.toplevels.remove(w)[v] == t.toplevels.remove(w)[v]);
                    assert(s.toplevels.remove(w).contains_key(v) == t.toplevels.remove(
                        w,
                    ).contains_key(v));
                }
            }
        },
    }
}

/// The first commit of a toplevel that is not kept as a tooltip opens it, and then goes on as any
/// later commit does.
pub proof fn law_first_commit_goes_on(
    s: StateView,
    w: u64,
    pointer: Option<Point>,
    serial: u32,
)
    requires
        s.toplevels.contains_key(w),
        !s.toplevels[w].mapped,
    ensures
        nameless_orphan(s, w) ==> s.toplevel_commit(w, pointer, serial) == s.first_commit(
            w,
            pointer,
            serial,
        ),
        !nameless_orphan(s, w) ==> s.toplevel_commit(w, pointer, serial) == s.first_commit(
            w,
            pointer,
            serial,
        ).toplevel_commit(w, pointer, serial),
{
    reveal(StateView::toplevel_commit);
    if s.is_anonymous(w) {
        assert(s.windows[w].title@ =~= Seq::<char>::empty());
        assert(s.windows[w].app_id@ =~= Seq::<char>::empty());
    } else {
        let f = s.first_commit(w, pointer, serial);
        let p = s.propose_mapping(w);
        let m = p.map_below_fullscreen(w, s.mapped_loc(w)).focus_window(w, serial);
        assert(m.toplevels == p.toplevels);
        assert(f.toplevels.contains_key(w));
        assert(f.toplevels[w].mapped);
        assert(!(f.toplevels[w].kind is Transient));
        assert(f.keep_transient_inside(w) == f);
    }
}

} // verus!
