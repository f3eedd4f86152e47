//! What the shell that knows toplevels only brings about.

use vstd::prelude::*;
use crate::arrangement;
use crate::arrangement::{lemma_lies, lemma_others};
use crate::command::Command;
use crate::geometry::{Point, Rect, Size};
use crate::handlers::toplevel_shell::law_plain_reflow_keeps_order;
use crate::space;
use crate::space::{lemma_level, lemma_moves, Element};
use crate::state::StateView;
use crate::toplevel::{PendingChange, SizeChange, Window};

verus! {

/// What tells `w` whether it is active; a window that was not configured yet hears it then.
pub open spec fn activation_of(s: StateView, w: u64, active: bool) -> Seq<Command> {
    let change = PendingChange {
        size: SizeChange::Keep,
        bounds: None,
        maximized: None,
        fullscreen: None,
        activated: Some(active),
    };
    if s.windows[w].initial_configure_sent {
        seq![
            Command::SetPending { window: w, change },
            Command::SendPendingConfigure { window: w },
        ]
    } else {
        seq![Command::SetPending { window: w, change }]
    }
}

/// What tells the windows of `es` that `w` and no other is active, from the bottom up.
pub open spec fn activations(s: StateView, es: Seq<Element>, w: u64) -> Seq<Command>
    decreases es.len(),
{
    if es.len() == 0 {
        Seq::empty()
    } else {
        activations(s, es.drop_last(), w) + activation_of(
            s,
            es.last().window,
            es.last().window == w,
        )
    }
}

proof fn lemma_activations(s: StateView, es: Seq<Element>, w: u64)
    requires
        forall|i: int| 0 <= i < es.len() ==> s.windows.contains_key((#[trigger] es[i]).window),
    ensures
        s.activate_only(es, w) == (StateView {
            commands: s.commands + activations(s, es, w),
            ..s
        }),
    decreases es.len(),
{
    if es.len() > 0 {
        let rest = es.drop_last();
        let v = es.last().window;
        assert(forall|i: int| 0 <= i < rest.len() ==> #[trigger] rest[i] == es[i]);
        lemma_activations(s, rest, w);
        let a = s.activate_only(rest, w);
        let b = s.activate_only(es, w);
        assert(s.windows.contains_key(es[es.len() - 1].window));
        lemma_configured_stays(s, v);
        assert(b.commands =~= s.commands + activations(s, es, w));
        assert(b.windows == s.windows);
    } else {
        assert(s.commands + activations(s, es, w) =~= s.commands);
    }
}

/// A window that was configured before is none the wiser after another configure.
proof fn lemma_configured_stays(s: StateView, w: u64)
    requires
        s.windows.contains_key(w),
    ensures
        s.windows[w].initial_configure_sent ==> s.windows.insert(
            w,
            Window { initial_configure_sent: true, ..s.windows[w] },
        ) == s.windows,
{
    if s.windows[w].initial_configure_sent {
        assert(Window { initial_configure_sent: true, ..s.windows[w] } == s.windows[w]);
        assert(s.windows.insert(w, s.windows[w]) =~= s.windows);
    }
}

/// Where the stack is once `w` has been raised.
proof fn lemma_raised(s: StateView, w: u64)
    requires
        s.wf(),
        space::stacked(s.elements, w),
    ensures
        ({
            let es = s.raise_window(w, true).elements;
            &&& space::distinct(es)
            &&& es.len() == s.elements.len()
            &&& es.last().window == w
            &&& arrangement::others(es, w) == arrangement::others(s.elements, w)
            &&& forall|at: Point|
                #[trigger] arrangement::lies_at(s.elements, w, at) ==> arrangement::lies_at(
                    es,
                    w,
                    at,
                )
            &&& forall|i: int|
                0 <= i < es.len() ==> s.windows.contains_key((#[trigger] es[i]).window)
        }),
{
    let es = s.raise_window(w, true).elements;
    lemma_moves(s.elements, w, Point { x: 0, y: 0 });
    lemma_others(s.elements, w);
    lemma_others(es, w);
    lemma_lies(s.elements);
    lemma_lies(es);
    let n = es.len() as int;
    assert(es[n - 1].window == w);
    lemma_level(es, n - 1);
    assert(es.remove(n - 1) =~= space::unmapped(s.elements, w));
    assert forall|i: int| 0 <= i < es.len() implies s.windows.contains_key(
        (#[trigger] es[i]).window,
    ) by {
        assert(space::stacked(es, es[i].window));
        assert(space::stacked(s.elements, es[i].window));
    }
}

/// A window that is focused goes to the top, keeps its place and leaves the others theirs; every
/// window hears whether it is the active one, and the focus goes to it.
pub proof fn law_plain_focus(s: StateView, w: u64, serial: u32)
    requires
        s.wf(),
        arrangement::present(s.elements, w),
    ensures
        ({
            let t = s.plain_focus_window(w, serial);
            &&& t.elements.len() == s.elements.len()
            &&& t.elements.last().window == w
            &&& arrangement::others(t.elements, w) == arrangement::others(s.elements, w)
            &&& forall|at: Point|
                #[trigger] arrangement::lies_at(s.elements, w, at) ==> arrangement::lies_at(
                    t.elements,
                    w,
                    at,
                )
            &&& t == (StateView {
                elements: t.elements,
                commands: s.commands + seq![Command::RaiseWindow { window: w, activate: true }]
                    + activations(s, t.elements, w) + seq![
                    Command::SetKeyboardFocus { focus: Some(w), serial },
                ],
                ..s
            })
        }),
{
    assert(space::stacked(s.elements, w));
    lemma_raised(s, w);
    let r = s.raise_window(w, true);
    lemma_activations(r, r.elements, w);
    lemma_activations_same(s, r, r.elements, w);
    let t = s.plain_focus_window(w, serial);
    assert(t.commands =~= s.commands + seq![Command::RaiseWindow { window: w, activate: true }]
        + activations(s, t.elements, w) + seq![
        Command::SetKeyboardFocus { focus: Some(w), serial },
    ]);
}

/// What tells windows that they are active depends on what was configured alone.
proof fn lemma_activations_same(s: StateView, r: StateView, es: Seq<Element>, w: u64)
    requires
        s.windows == r.windows,
    ensures
        activations(s, es, w) == activations(r, es, w),
    decreases es.len(),
{
    if es.len() > 0 {
        lemma_activations_same(s, r, es.drop_last(), w);
    }
}

/// The topmost window gets the focus; without any, no one does.
pub proof fn law_plain_focus_topmost(s: StateView, serial: u32)
    ensures
        s.elements.len() > 0 ==> s.plain_focus_topmost(serial) == s.plain_focus_window(
            s.elements[s.elements.len() - 1].window,
            serial,
        ),
        s.elements.len() == 0 ==> s.plain_focus_topmost(serial) == (StateView {
            commands: s.commands.push(Command::SetKeyboardFocus { focus: None, serial }),
            ..s
        }),
{
}

/// A new toplevel is proposed the size of the zone and mapped on top at its corner, or in the corner
/// of the plane without an output, and gets the focus.
pub proof fn law_plain_new_toplevel(s: StateView, w: u64, serial: u32)
    requires
        s.wf(),
        s.windows.contains_key(w),
    ensures
        ({
            let t = s.plain_new_toplevel(w, serial);
            let loc = if s.outputs.len() > 0 {
                s.outputs[0].zone.loc
            } else {
                Point { x: 0, y: 0 }
            };
            let first = if s.outputs.len() > 0 {
                seq![
                    Command::SetPending {
                        window: w,
                        change: PendingChange {
                            size: SizeChange::To(s.outputs[0].zone.size),
                            bounds: None,
                            maximized: None,
                            fullscreen: None,
                            activated: None,
                        },
                    },
                    Command::MapWindow { window: w, loc, activate: true },
                ]
            } else {
                seq![Command::MapWindow { window: w, loc, activate: true }]
            };
            &&& t.elements.last() == (Element { window: w, loc })
            &&& arrangement::others(t.elements, w) == arrangement::others(s.elements, w)
            &&& arrangement::lies_at(t.elements, w, loc)
            &&& t == (StateView {
                elements: t.elements,
                commands: s.commands + first + seq![
                    Command::RaiseWindow { window: w, activate: true },
                ] + activations(s, t.elements, w) + seq![
                    Command::SetKeyboardFocus { focus: Some(w), serial },
                ],
                ..s
            })
        }),
{
    let loc = if s.outputs.len() > 0 {
        s.outputs[0].zone.loc
    } else {
        Point { x: 0, y: 0 }
    };
    let m = if s.outputs.len() > 0 {
        s.set_pending(w, PendingChange::sized(s.outputs[0].zone.size)).map_window(w, loc, true)
    } else {
        s.map_window(w, loc, true)
    };
    lemma_moves(s.elements, w, loc);
    assert forall|v: u64| #[trigger] space::stacked(m.elements, v) implies m.windows.contains_key(
        v,
    ) by {
        assert(space::stacked(s.elements, v) || v == w);
    }
    assert(m.wf());
    let n = m.elements.len() as int;
    assert(m.elements[n - 1].window == w);
    lemma_level(m.elements, n - 1);
    lemma_others(s.elements, w);
    lemma_others(m.elements, w);
    lemma_lies(m.elements);
    assert(m.elements.remove(n - 1) =~= space::unmapped(s.elements, w));
    assert(arrangement::lies_at(m.elements, w, loc));
    law_plain_focus(m, w, serial);
    lemma_raised(m, w);
    let t = s.plain_new_toplevel(w, serial);
    lemma_activations_same(s, m, t.elements, w);
    assert(t.elements[t.elements.len() - 1].window == w);
    assert(t.commands =~= m.commands + seq![Command::RaiseWindow { window: w, activate: true }]
        + activations(s, t.elements, w) + seq![
        Command::SetKeyboardFocus { focus: Some(w), serial },
    ]);
}

/// A toplevel that goes is unmapped if it was stacked, which leaves the others as they are, and then
/// the topmost window gets the focus.
pub proof fn law_plain_end_of_toplevel(s: StateView, w: u64, serial: u32)
    requires
        s.wf(),
    ensures
        s.plain_toplevel_destroyed(w, serial) == (if arrangement::present(s.elements, w) {
            StateView {
                elements: arrangement::others(s.elements, w),
                commands: s.commands.push(Command::UnmapWindow { window: w }),
                ..s
            }
        } else {
            s
        }).plain_focus_topmost(serial),
{
    lemma_others(s.elements, w);
    assert(arrangement::present(s.elements, w) <==> space::stacked(s.elements, w));
}

/// A commit of a stacked toplevel that was not configured yet sends it its configure; any other
/// commit does nothing.
pub proof fn law_plain_commit(s: StateView, w: u64)
    ensures
        s.plain_commit(w) == if arrangement::present(s.elements, w)
            && !s.windows[w].initial_configure_sent {
            StateView {
                windows: s.windows.insert(
                    w,
                    Window { initial_configure_sent: true, ..s.windows[w] },
                ),
                commands: s.commands.push(Command::SendConfigure { window: w }),
                ..s
            }
        } else {
            s
        },
{
    assert(arrangement::present(s.elements, w) <==> space::stacked(s.elements, w));
}

/// What makes `w` fill `zone`.
pub open spec fn filling(s: StateView, w: u64, zone: Rect) -> Seq<Command> {
    let propose = Command::SetPending {
        window: w,
        change: PendingChange {
            size: SizeChange::To(zone.size),
            bounds: None,
            maximized: None,
            fullscreen: None,
            activated: None,
        },
    };
    let place = Command::MapWindow { window: w, loc: zone.loc, activate: false };
    if s.windows[w].initial_configure_sent {
        seq![propose, Command::SendPendingConfigure { window: w }, place]
    } else {
        seq![propose, place]
    }
}

/// What makes the windows of `es` fill `zone`, from the bottom up.
pub open spec fn fillings(s: StateView, es: Seq<Element>, zone: Rect) -> Seq<Command>
    decreases es.len(),
{
    if es.len() == 0 {
        Seq::empty()
    } else {
        fillings(s, es.drop_last(), zone) + filling(s, es.last().window, zone)
    }
}

proof fn lemma_fillings(s: StateView, es: Seq<Element>, zone: Rect)
    requires
        forall|i: int| 0 <= i < es.len() ==> s.windows.contains_key((#[trigger] es[i]).window),
    ensures
        ({
            let t = s.fill_zone_all(space::windows_of(es), zone);
            t == (StateView {
                elements: t.elements,
                commands: s.commands + fillings(s, es, zone),
                ..s
            })
        }),
    decreases es.len(),
{
    let ws = space::windows_of(es);
    let t = s.fill_zone_all(ws, zone);
    if es.len() > 0 {
        let rest = es.drop_last();
        let w = es.last().window;
        assert(forall|i: int| 0 <= i < rest.len() ==> #[trigger] rest[i] == es[i]);
        lemma_fillings(s, rest, zone);
        assert(ws.drop_last() =~= space::windows_of(rest));
        assert(ws.last() == w);
        assert(s.windows.contains_key(es[es.len() - 1].window));
        lemma_configured_stays(s, w);
        assert(t.commands =~= s.commands + fillings(s, es, zone));
        assert(t.windows == s.windows);
    } else {
        assert(s.commands + fillings(s, es, zone) =~= s.commands);
        assert(ws =~= Seq::empty());
    }
}

/// After a new layout every window, whatever its size, is proposed the size of the zone and put at
/// its corner; those that were configured are sent the proposal. The order stays, and without an
/// output nothing happens.
pub proof fn law_plain_reflow(s: StateView)
    requires
        s.wf(),
    ensures
        ({
            let t = s.plain_reflow_toplevels();
            let zone = s.outputs[0].zone;
            &&& s.outputs.len() == 0 ==> t == s
            &&& s.outputs.len() > 0 ==> t == (StateView {
                elements: Seq::new(
                    s.elements.len(),
                    |i: int| Element { window: s.elements[i].window, loc: zone.loc },
                ),
                commands: s.commands + fillings(s, s.elements, zone),
                ..s
            })
        }),
{
    if s.outputs.len() > 0 {
        let zone = s.outputs[0].zone;
        let t = s.plain_reflow_toplevels();
        assert forall|i: int| 0 <= i < s.elements.len() implies s.windows.contains_key(
            (#[trigger] s.elements[i]).window,
        ) by {
            assert(space::stacked(s.elements, s.elements[i].window));
        }
        lemma_fillings(s, s.elements, zone);
        law_plain_reflow_keeps_order(s);
        let a = space::windows_of(t.elements);
        let b = space::windows_of(s.elements);
        assert(a.len() == t.elements.len());
        assert forall|i: int| 0 <= i < s.elements.len() implies #[trigger] t.elements[i] == (
        Element { window: s.elements[i].window, loc: zone.loc }) by {
            assert(a[i] == b[i]);
        }
        assert(t.elements =~= Seq::new(
            s.elements.len(),
            |i: int| Element { window: s.elements[i].window, loc: zone.loc },
        ));
    }
}

/// A new layout makes the windows fill the zone, and then tells the lock surfaces.
pub proof fn law_plain_layout(s: StateView, size: Size)
    ensures
        s.plain_arranged(size) == s.plain_reflow_toplevels().lock_surfaces_resized(size),
{
}

/// Focusing a window that is not in the stack moves none; every window hears that it is not the
/// active one, and the focus goes to the one asked for.
pub proof fn law_plain_focus_need_not_be_stacked(s: StateView, w: u64, serial: u32)
    requires
        s.wf(),
        !arrangement::present(s.elements, w),
    ensures
        s.plain_focus_window(w, serial) == (StateView {
            commands: s.commands + seq![Command::RaiseWindow { window: w, activate: true }]
                + activations(s, s.elements, w) + seq![
                Command::SetKeyboardFocus { focus: Some(w), serial },
            ],
            ..s
        }),
{
    assert(!space::stacked(s.elements, w));
    let r = s.raise_window(w, true);
    assert forall|i: int| 0 <= i < r.elements.len() implies r.windows.contains_key(
        (#[trigger] r.elements[i]).window,
    ) by {
        assert(space::stacked(s.elements, s.elements[i].window));
    }
    lemma_activations(r, r.elements, w);
    lemma_activations_same(s, r, r.elements, w);
    assert(s.plain_focus_window(w, serial).commands =~= s.commands + seq![
        Command::RaiseWindow { window: w, activate: true },
    ] + activations(s, s.elements, w) + seq![
        Command::SetKeyboardFocus { focus: Some(w), serial },
    ]);
}

} // verus!
