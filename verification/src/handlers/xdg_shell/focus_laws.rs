//! Who gets the focus.

use vstd::prelude::*;
use crate::arrangement;
use crate::arrangement::{lemma_lies, lemma_others};
use crate::command::Command;
use crate::geometry::Point;
use crate::handlers::foreign_toplevel::data::WlrHandle;
use crate::handlers::foreign_toplevel::manager::ForeignView;
use crate::handlers::foreign_toplevel::refresh::HandleRequest;
use crate::handlers::xdg_shell::laws::lemma_raised_on_top;
use crate::handlers::xdg_shell::mapping_laws::lemma_fullscreen_shown;
use crate::sequences::lemma_filtered;
use crate::space;
use crate::space::{lemma_level, lemma_moves, Element};
use crate::state;
use crate::state::{lemma_topmost_fullscreen, StateView};
use crate::toplevel::WindowMode;

verus! {

/// Whether a fullscreen window is above `w`, or `w` is none while another is.
pub open spec fn kept_from_focus(s: StateView, w: u64) -> bool {
    exists|f: u64|
        f != w && #[trigger] arrangement::shown_fullscreen(s, f) && !(
        arrangement::shown_fullscreen(s, w) && arrangement::above(s.elements, w, f))
}

/// Whether the commands from `from` to the end of `cs` raise `w`, tell every stacked window that was
/// configured before what is pending for it, and no other, and give `w` the keyboard focus.
pub open spec fn focuses(
    s: StateView,
    cs: Seq<Command>,
    es: Seq<Element>,
    from: int,
    w: u64,
    serial: u32,
) -> bool {
    &&& from + 2 <= cs.len()
    &&& cs[from] == (Command::RaiseWindow { window: w, activate: true })
    &&& cs.last() == (Command::SetKeyboardFocus { focus: Some(w), serial })
    &&& forall|k: int|
        from < k < cs.len() - 1 ==> match #[trigger] cs[k] {
            Command::SendPendingConfigure { window } => arrangement::present(es, window)
                && s.windows[window].initial_configure_sent,
            _ => false,
        }
    &&& forall|i: int|
        0 <= i < es.len() && s.windows[(#[trigger] es[i]).window].initial_configure_sent
            ==> exists|k: int|
            from < k < cs.len() - 1 && #[trigger] cs[k] == (Command::SendPendingConfigure {
                window: es[i].window,
            })
}

/// The topmost fullscreen window is above every other one.
pub(crate) proof fn lemma_topmost_is_top(es: Seq<Element>, s: StateView, i: int)
    requires
        space::distinct(es),
        0 <= i < es.len(),
        s.toplevels.contains_key(es[i].window),
        s.toplevels[es[i].window].mode == WindowMode::Fullscreen,
    ensures
        state::topmost_fullscreen(es, s.toplevels) matches Some(f) && exists|k: int|
            i <= k < es.len() && (#[trigger] es[k]).window == f,
    decreases es.len(),
{
    let rest = es.drop_last();
    let n = es.len() as int;
    assert(es[n - 1] == es.last());
    assert(forall|j: int| 0 <= j < rest.len() ==> #[trigger] rest[j] == es[j]);
    if s.toplevels.contains_key(es.last().window) && s.toplevels[es.last().window].mode
        == WindowMode::Fullscreen {
        assert(es[n - 1].window == state::topmost_fullscreen(es, s.toplevels)->0);
    } else {
        assert(i < n - 1);
        assert(space::distinct(rest));
        lemma_topmost_is_top(rest, s, i);
        let f = state::topmost_fullscreen(rest, s.toplevels)->0;
        let k = choose|k: int| i <= k < rest.len() && (#[trigger] rest[k]).window == f;
        assert(es[k].window == f);
    }
}

/// A window is refused the focus just if a fullscreen window keeps it.
proof fn lemma_refused(s: StateView, w: u64)
    requires
        s.wf(),
    ensures
        s.focus_refused(w) <==> kept_from_focus(s, w),
{
    lemma_fullscreen_shown(s);
    lemma_lies(s.elements);
    if s.focus_refused(w) {
        let f = s.active_fullscreen_window()->0;
        assert(arrangement::shown_fullscreen(s, f));
        if arrangement::shown_fullscreen(s, w) && arrangement::above(s.elements, w, f) {
            let i = space::level(s.elements, w);
            assert(s.elements[i].window == w);
            lemma_topmost_is_top(s.elements, s, i);
            let k = choose|k: int|
                i <= k < s.elements.len() && (#[trigger] s.elements[k]).window == f;
            assert(s.elements[k].window == f);
        }
    }
    if kept_from_focus(s, w) {
        let f = choose|f: u64|
            f != w && #[trigger] arrangement::shown_fullscreen(s, f) && !(
            arrangement::shown_fullscreen(s, w) && arrangement::above(s.elements, w, f));
        assert(s.active_fullscreen_window() is Some);
        if s.active_fullscreen_window() == Some(w) {
            assert(arrangement::shown_fullscreen(s, w));
            let i = space::level(s.elements, f);
            assert(s.elements[i].window == f);
            lemma_topmost_is_top(s.elements, s, i);
            let k = choose|k: int|
                i <= k < s.elements.len() && (#[trigger] s.elements[k]).window == w;
            lemma_level(s.elements, i);
            lemma_level(s.elements, k);
            assert(i != k);
            assert(space::level(s.elements, f) < space::level(s.elements, w));
        }
    }
}

/// A window that is focused goes to the top and becomes the active one, no layer is owed the focus
/// any more, and every configured window hears whether it is active. The other windows keep their
/// places and their order. While a fullscreen window is in the way, nothing changes.
pub proof fn law_focused_window_is_on_top(s: StateView, w: u64, serial: u32)
    requires
        s.wf(),
        arrangement::present(s.elements, w),
    ensures
        kept_from_focus(s, w) ==> s.focus_window(w, serial) == s,
        !kept_from_focus(s, w) ==> {
            let t = s.focus_window(w, serial);
            &&& t.elements.last().window == w
            &&& arrangement::others(t.elements, w) == arrangement::others(s.elements, w)
            &&& forall|at: Point|
                #[trigger] arrangement::lies_at(s.elements, w, at) ==> arrangement::lies_at(
                    t.elements,
                    w,
                    at,
                )
            &&& s.commands.is_prefix_of(t.commands)
            &&& focuses(s, t.commands, t.elements, s.commands.len() as int, w, serial)
            &&& t == (StateView {
                elements: t.elements,
                commands: t.commands,
                active_window: Some(w),
                layer_shell_on_demand_focus: None,
                ..s
            })
        },
{
    lemma_refused(s, w);
    if !kept_from_focus(s, w) {
        lemma_focus_granted(s, w, serial);
    }
}

/// What a window that is not refused the focus brings about.
proof fn lemma_focus_granted(s: StateView, w: u64, serial: u32)
    requires
        s.wf(),
        arrangement::present(s.elements, w),
        !s.focus_refused(w),
    ensures
        ({
            let t = s.focus_window(w, serial);
            &&& t.elements.last().window == w
            &&& arrangement::others(t.elements, w) == arrangement::others(s.elements, w)
            &&& forall|at: Point|
                #[trigger] arrangement::lies_at(s.elements, w, at) ==> arrangement::lies_at(
                    t.elements,
                    w,
                    at,
                )
            &&& s.commands.is_prefix_of(t.commands)
            &&& focuses(s, t.commands, t.elements, s.commands.len() as int, w, serial)
            &&& t == (StateView {
                elements: t.elements,
                commands: t.commands,
                active_window: Some(w),
                layer_shell_on_demand_focus: None,
                ..s
            })
        }),
{
    let t = s.focus_window(w, serial);
    lemma_lies(s.elements);
    lemma_raised_on_top(s.elements, w);
    lemma_moves(s.elements, w, space::loc_of(s.elements, w));
    lemma_lies(t.elements);
    lemma_others(s.elements, w);
    lemma_others(t.elements, w);
    let n = t.elements.len() as int;
    lemma_level(t.elements, n - 1);
    let r = s.raise_window(w, true);
    let pred = |e: Element| r.windows[e.window].initial_configure_sent;
    let told = r.elements.filter(pred);
    lemma_filtered(r.elements, pred);
    let from = s.commands.len() as int;
    let pending = r.pending_configures();
    assert(pending.len() == told.len());
    assert(t.commands =~= s.commands + seq![
        Command::RaiseWindow { window: w, activate: true },
    ] + pending + seq![Command::SetKeyboardFocus { focus: Some(w), serial }]);
    assert(s.commands =~= t.commands.take(from));
    assert forall|k: int| from < k < t.commands.len() - 1 implies match #[trigger] t.commands[k] {
        Command::SendPendingConfigure { window } => arrangement::present(t.elements, window)
            && s.windows[window].initial_configure_sent,
        _ => false,
    } by {
        let e = told[k - from - 1];
        assert(t.commands[k] == pending[k - from - 1]);
        assert(pred(e));
        let i = r.elements.index_of(e);
        assert(t.elements[i].window == e.window);
    }
    assert forall|i: int|
        0 <= i < t.elements.len() && s.windows[(
        #[trigger] t.elements[i]).window].initial_configure_sent implies exists|k: int|
        from < k < t.commands.len() - 1 && #[trigger] t.commands[k] == (
        Command::SendPendingConfigure { window: t.elements[i].window }) by {
        assert(r.elements.contains(t.elements[i]));
        assert(told.contains(t.elements[i]));
        let j = told.index_of(t.elements[i]);
        assert(t.commands[from + 1 + j] == pending[j]);
    }
}

/// When a toplevel goes, it is forgotten. If it was stacked, the others keep their places and their
/// order, and the topmost one left gets the focus unless a fullscreen window keeps it; without any
/// other, no one has it. The end of a tooltip, and of a toplevel that was never stacked, changes
/// nothing else.
pub proof fn law_end_of_toplevel(s: StateView, w: u64, serial: u32)
    requires
        s.wf(),
    ensures
        ({
            let t = s.toplevel_destroyed(w, serial);
            let left = arrangement::others(s.elements, w);
            let tooltip = s.toplevels.contains_key(w) && s.toplevels[w].kind is Transient;
            let refused = left.len() > 0 && kept_from_focus(
                StateView { toplevels: s.toplevels.remove(w), elements: left, ..s },
                left.last().window,
            );
            &&& t.toplevels == s.toplevels.remove(w)
            &&& tooltip || !arrangement::present(s.elements, w) ==> t == (StateView {
                toplevels: s.toplevels.remove(w),
                ..s
            })
            &&& !tooltip && arrangement::present(s.elements, w) && refused ==> t == (StateView {
                toplevels: s.toplevels.remove(w),
                elements: left,
                commands: s.commands.push(Command::UnmapWindow { window: w }),
                ..s
            })
            &&& !tooltip && arrangement::present(s.elements, w) && !refused ==> {
                &&& t.elements == left
                &&& s.commands.is_prefix_of(t.commands)
                &&& t.commands.len() > s.commands.len() + 1
                &&& t.commands[s.commands.len() as int] == (Command::UnmapWindow { window: w })
                &&& t.layer_shell_on_demand_focus is None
                &&& left.len() == 0 ==> {
                    &&& t.active_window is None
                    &&& t.commands.last() == (Command::SetKeyboardFocus { focus: None, serial })
                }
                &&& left.len() > 0 ==> {
                    &&& t.active_window == Some(left.last().window)
                    &&& focuses(
                        s,
                        t.commands,
                        left,
                        s.commands.len() as int + 1,
                        left.last().window,
                        serial,
                    )
                }
            }
        }),
{
    let t = s.toplevel_destroyed(w, serial);
    lemma_lies(s.elements);
    lemma_others(s.elements, w);
    if !s.is_transient(w) && space::stacked(s.elements, w) {
        let u = StateView { toplevels: s.toplevels.remove(w), ..s }.unmap_window(w);
        lemma_moves(s.elements, w, Point { x: 0, y: 0 });
        assert(u.elements == arrangement::others(s.elements, w));
        let n = s.commands.len() as int;
        assert(u.wf());
        if u.elements.len() > 0 {
            let top = u.elements.last().window;
            let k = u.elements.len() - 1;
            assert(u.elements[k].window == top);
            lemma_lies(u.elements);
            let bare = StateView { toplevels: s.toplevels.remove(w), elements: u.elements, ..s };
            lemma_refused(bare, top);
            assert(bare.focus_refused(top) == u.focus_refused(top));
            if !u.focus_refused(top) {
                lemma_focus_granted(u, top, serial);
            }
            lemma_level(u.elements, k);
            lemma_raised_on_top(u.elements, top);
            assert(space::raised(u.elements, top) =~= u.elements);
            assert(t.elements == u.elements);
            assert(forall|x: int| 0 <= x < u.commands.len() ==> #[trigger] t.commands[x]
                == u.commands[x]);
        }
        assert(s.commands =~= t.commands.take(n));
    }
}

/// A token hands the focus to a stacked window while it is less than ten seconds old; any other has
/// no effect.
pub proof fn law_fresh_token_hands_over_focus(
    s: StateView,
    age_secs: u64,
    w: u64,
    serial: u32,
)
    ensures
        s.request_activation(age_secs, w, serial) == if age_secs < 10 && arrangement::present(
            s.elements,
            w,
        ) {
            s.focus_window(w, serial)
        } else {
            s
        },
        s.plain_request_activation(age_secs, w, serial) == if age_secs < 10
            && arrangement::present(s.elements, w) {
            s.plain_focus_window(w, serial)
        } else {
            s
        },
{
}

/// Through a handle that stands for the toplevel `w` a client can give `w` the focus, unless it is a
/// tooltip, and ask it to close.
pub proof fn law_handles_activate_and_close(
    s: StateView,
    handle: WlrHandle,
    w: u64,
    i: int,
    k: int,
    serial: u32,
)
    requires
        s.foreign.wf(),
        0 <= i < s.foreign.toplevels.len(),
        s.foreign.toplevels[i].surface == w,
        0 <= k < s.foreign.toplevels[i].instances.len(),
        s.foreign.toplevels[i].instances[k].handle == handle,
    ensures
        s.handle_request(handle, HandleRequest::Close, serial) == if s.toplevels.contains_key(w) {
            StateView { commands: s.commands.push(Command::SendClose { window: w }), ..s }
        } else {
            s
        },
        s.handle_request(handle, HandleRequest::Activate, serial) == if s.toplevels.contains_key(w)
            && !(s.toplevels[w].kind is Transient) {
            s.focus_window(w, serial)
        } else {
            s
        },
{
    assert(s.foreign.toplevels[i].owns_handles());
    assert(handle.surface == w);
    crate::handlers::foreign_toplevel::manager::lemma_index(s.foreign.toplevels, i);
    assert(s.foreign.told(w).has_instance(handle));
    crate::handlers::foreign_toplevel::laws::law_handle_names_its_toplevel(s.foreign, handle);
}

/// Through a handle that stands for no toplevel a client can do nothing.
pub proof fn law_dead_handles_do_nothing(
    s: StateView,
    handle: WlrHandle,
    request: HandleRequest,
    serial: u32,
)
    requires
        forall|i: int, k: int|
            #![trigger s.foreign.toplevels[i].instances[k]]
            0 <= i < s.foreign.toplevels.len() && 0 <= k < s.foreign.toplevels[i].instances.len()
                ==> s.foreign.toplevels[i].instances[k].handle != handle,
    ensures
        s.handle_request(handle, request, serial) == s,
{
    crate::handlers::foreign_toplevel::laws::lemma_handle_owner(s.foreign.toplevels, handle);
    if let Some(w) = ForeignView::handle_owner(s.foreign.toplevels, handle) {
        let i = choose|i: int|
            0 <= i < s.foreign.toplevels.len() && (#[trigger] s.foreign.toplevels[i]).surface == w
                && s.foreign.toplevels[i].has_instance(handle);
        let k = choose|k: int|
            0 <= k < s.foreign.toplevels[i].instances.len() && (
            #[trigger] s.foreign.toplevels[i].instances[k]).handle == handle;
        assert(s.foreign.toplevels[i].instances[k].handle == handle);
    }
}

/// The layer that is owed the focus gets it, unless it has it or the session is locked.
pub proof fn law_owed_focus_is_given(s: StateView, serial: u32)
    ensures
        s.give_owed_focus(serial) == match s.layer_shell_on_demand_focus {
            Some(surface) => if s.is_locked || s.keyboard_focus == Some(surface) {
                s
            } else {
                StateView {
                    commands: s.commands.push(
                        Command::SetKeyboardFocus { focus: Some(surface), serial },
                    ),
                    ..s
                }
            },
            None => s,
        },
{
}

/// Focusing a window that is not in the stack moves none; while no fullscreen window is in the way,
/// it becomes the active one and gets the focus all the same.
pub proof fn law_focused_window_need_not_be_stacked(s: StateView, w: u64, serial: u32)
    requires
        s.wf(),
        !arrangement::present(s.elements, w),
    ensures
        !arrangement::nothing_fullscreen(s) ==> s.focus_window(w, serial) == s,
        arrangement::nothing_fullscreen(s) ==> {
            let t = s.focus_window(w, serial);
            &&& t == (StateView {
                commands: t.commands,
                active_window: Some(w),
                layer_shell_on_demand_focus: None,
                ..s
            })
            &&& s.commands.is_prefix_of(t.commands)
            &&& t.commands[s.commands.len() as int] == (Command::RaiseWindow {
                window: w,
                activate: true,
            })
            &&& t.commands.last() == (Command::SetKeyboardFocus { focus: Some(w), serial })
        },
{
    lemma_lies(s.elements);
    lemma_fullscreen_shown(s);
    lemma_topmost_fullscreen(s.elements, s.toplevels);
    let t = s.focus_window(w, serial);
    assert(!space::stacked(s.elements, w));
    if arrangement::nothing_fullscreen(s) {
        assert(s.commands =~= t.commands.take(s.commands.len() as int));
    }
}

/// The topmost window gets the focus; without any, no window is active and no one has it.
pub proof fn law_focus_goes_to_topmost(s: StateView, serial: u32)
    ensures
        s.elements.len() > 0 ==> s.focus_topmost(serial) == s.focus_window(
            s.elements[s.elements.len() - 1].window,
            serial,
        ),
        s.elements.len() == 0 ==> s.focus_topmost(serial) == (StateView {
            active_window: None,
            layer_shell_on_demand_focus: None,
            commands: s.commands.push(Command::SetKeyboardFocus { focus: None, serial }),
            ..s
        }),
{
}

/// What tells the configured windows of `es` what is pending for them, from the bottom up.
pub open spec fn pending_told(s: StateView, es: Seq<Element>) -> Seq<Command>
    decreases es.len(),
{
    if es.len() == 0 {
        Seq::empty()
    } else if s.windows[es.last().window].initial_configure_sent {
        pending_told(s, es.drop_last()).push(
            Command::SendPendingConfigure { window: es.last().window },
        )
    } else {
        pending_told(s, es.drop_last())
    }
}

proof fn lemma_pending_told(s: StateView, es: Seq<Element>)
    ensures
        es.filter(|e: Element| s.windows[e.window].initial_configure_sent).map_values(
            |e: Element| Command::SendPendingConfigure { window: e.window },
        ) == pending_told(s, es),
    decreases es.len(),
{
    reveal(Seq::filter);
    let pred = |e: Element| s.windows[e.window].initial_configure_sent;
    let send = |e: Element| Command::SendPendingConfigure { window: e.window };
    if es.len() > 0 {
        lemma_pending_told(s, es.drop_last());
        if pred(es.last()) {
            assert(es.filter(pred).map_values(send) =~= es.drop_last().filter(pred).map_values(
                send,
            ).push(send(es.last())));
        }
    } else {
        assert(es.filter(pred).map_values(send) =~= Seq::empty());
    }
}

/// A window that gets the focus is raised and activated, then every configured window in the stack
/// hears from the bottom up what is pending for it, and then the keyboard focus moves; that is all
/// that is asked for.
pub proof fn law_focus_asks_in_order(s: StateView, w: u64, serial: u32)
    requires
        s.wf(),
        !kept_from_focus(s, w),
    ensures
        s.focus_window(w, serial).commands == s.commands + seq![
            Command::RaiseWindow { window: w, activate: true },
        ] + pending_told(s, s.focus_window(w, serial).elements) + seq![
            Command::SetKeyboardFocus { focus: Some(w), serial },
        ],
{
    lemma_refused(s, w);
    let r = s.raise_window(w, true);
    lemma_pending_told(r, r.elements);
    lemma_pending_same(s, r, r.elements);
    assert(s.focus_window(w, serial).commands =~= s.commands + seq![
        Command::RaiseWindow { window: w, activate: true },
    ] + pending_told(s, r.elements) + seq![
        Command::SetKeyboardFocus { focus: Some(w), serial },
    ]);
}

proof fn lemma_pending_same(s: StateView, r: StateView, es: Seq<Element>)
    requires
        s.windows == r.windows,
    ensures
        pending_told(s, es) == pending_told(r, es),
    decreases es.len(),
{
    if es.len() > 0 {
        lemma_pending_same(s, r, es.drop_last());
    }
}

/// When a stacked toplevel that is no tooltip goes, it is unmapped, and then the topmost window is
/// focused as ever.
pub proof fn law_end_of_toplevel_refocuses(s: StateView, w: u64, serial: u32)
    requires
        s.wf(),
        arrangement::present(s.elements, w),
        !(s.toplevels.contains_key(w) && s.toplevels[w].kind is Transient),
    ensures
        s.toplevel_destroyed(w, serial) == (StateView {
            toplevels: s.toplevels.remove(w),
            elements: arrangement::others(s.elements, w),
            commands: s.commands.push(Command::UnmapWindow { window: w }),
            ..s
        }).focus_topmost(serial),
{
    lemma_others(s.elements, w);
    assert(space::stacked(s.elements, w));
}

} // verus!
