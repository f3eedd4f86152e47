//! What requests of clients and later commits make of a window.

use vstd::prelude::*;
use crate::arrangement;
use crate::arrangement::{lemma_lies, lemma_others};
use crate::command::Command;
use crate::geometry::{Point, Rect, Size};
use crate::handlers::xdg_shell::laws::lemma_raised_on_top;
use crate::handlers::xdg_shell::placement_laws;
use crate::handlers::xdg_shell::placement_laws::lemma_zone_loc;
use crate::space;
use crate::space::lemma_moves;
use crate::state::StateView;
use crate::toplevel::{
    PendingChange, SizeChange, Window, WindowKind, WindowMode, WindowState,
};

verus! {

/// The area that a window fills when it is fullscreen.
pub open spec fn whole_output(s: StateView) -> Option<Rect> {
    if s.outputs.len() == 0 {
        None
    } else {
        s.outputs[0].geometry
    }
}

/// `w` having been sent a configure.
pub open spec fn after_configure(s: StateView, w: u64) -> Map<u64, Window> {
    s.windows.insert(w, Window { initial_configure_sent: true, ..s.windows[w] })
}

/// `w` in another mode.
pub open spec fn after_mode(s: StateView, w: u64, mode: WindowMode) -> Map<u64, WindowState> {
    s.toplevels.insert(w, WindowState { mode, ..s.toplevels[w] })
}

/// A toplevel that asks to be maximized is, unless it is a dialog, a tooltip, fullscreen or of a
/// maximum size that does not let it fill the zone; then nothing changes. It is proposed the size of
/// the zone and sent a configure.
pub proof fn law_maximize_request(s: StateView, w: u64)
    requires
        s.toplevels.contains_key(w),
    ensures
        ({
            let t = s.maximize_request(w);
            let refused = {
                ||| s.windows[w].parent is Some
                ||| s.toplevels[w].kind is Transient
                ||| s.toplevels[w].mode == WindowMode::Fullscreen
                ||| s.outputs.len() > 0 && !arrangement::can_fill(
                    s.windows[w].max_size,
                    s.outputs[0].zone.size,
                )
            };
            &&& refused ==> t == s
            &&& !refused && s.outputs.len() == 0 ==> t == (StateView {
                windows: after_configure(s, w),
                commands: s.commands.push(Command::SendConfigure { window: w }),
                ..s
            })
            &&& !refused && s.outputs.len() > 0 ==> t == (StateView {
                windows: after_configure(s, w),
                toplevels: after_mode(s, w, WindowMode::Maximized),
                commands: s.commands + seq![
                    Command::SetPending {
                        window: w,
                        change: PendingChange {
                            size: SizeChange::To(s.outputs[0].zone.size),
                            bounds: None,
                            maximized: Some(true),
                            fullscreen: None,
                            activated: None,
                        },
                    },
                    Command::SendConfigure { window: w },
                ],
                ..s
            })
        }),
{
}

/// A maximized window that asks to leave that mode is told again that it fills the zone and stays
/// maximized. Any other toplevel, and one that does not fill the zone, hears nothing.
pub proof fn law_unmaximize_request(s: StateView, w: u64)
    requires
        s.toplevels.contains_key(w),
    ensures
        ({
            let t = s.unmaximize_request(w);
            let refused = {
                ||| s.windows[w].parent is Some
                ||| s.toplevels[w].kind is Transient
                ||| s.toplevels[w].mode != WindowMode::Maximized
                ||| s.outputs.len() > 0 && !arrangement::can_fill(
                    s.windows[w].max_size,
                    s.outputs[0].zone.size,
                )
            };
            &&& t.toplevels == s.toplevels
            &&& refused ==> t == s
            &&& !refused && s.outputs.len() == 0 ==> t == (StateView {
                windows: after_configure(s, w),
                commands: s.commands.push(Command::SendConfigure { window: w }),
                ..s
            })
            &&& !refused && s.outputs.len() > 0 ==> t == (StateView {
                windows: after_configure(s, w),
                commands: s.commands + seq![
                    Command::SetPending {
                        window: w,
                        change: PendingChange {
                            size: SizeChange::To(s.outputs[0].zone.size),
                            bounds: None,
                            maximized: Some(true),
                            fullscreen: None,
                            activated: None,
                        },
                    },
                    Command::SendConfigure { window: w },
                ],
                ..s
            })
        }),
{
}

/// A toplevel that asks to be fullscreen is, unless it is a dialog, a tooltip, fullscreen already or
/// of a maximum size that does not let it fill the output; then nothing changes. It is proposed the
/// size of the output, sent a configure, put above every other window and focused.
pub proof fn law_fullscreen_request(s: StateView, w: u64, serial: u32)
    requires
        s.wf(),
        s.toplevels.contains_key(w),
        arrangement::present(s.elements, w),
    ensures
        ({
            let t = s.fullscreen_request(w, serial);
            let refused = {
                ||| s.windows[w].parent is Some
                ||| s.toplevels[w].kind is Transient
                ||| s.toplevels[w].mode == WindowMode::Fullscreen
                ||| whole_output(s) matches Some(area) && !arrangement::can_fill(
                    s.windows[w].max_size,
                    area.size,
                )
            };
            let n = s.commands.len() as int;
            &&& refused ==> t == s
            &&& !refused ==> {
                &&& s.commands.is_prefix_of(t.commands)
                &&& arrangement::others(t.elements, w) == arrangement::others(s.elements, w)
                &&& t.elements.last().window == w
            }
            &&& !refused ==> match whole_output(s) {
                Some(area) => {
                    &&& t.toplevels == after_mode(s, w, WindowMode::Fullscreen)
                    &&& t.active_window == Some(w)
                    &&& t.commands.last() == (Command::SetKeyboardFocus { focus: Some(w), serial })
                    &&& t.commands.len() > n + 2
                    &&& t.commands[n] == (Command::SetPending {
                        window: w,
                        change: PendingChange {
                            size: SizeChange::To(area.size),
                            bounds: None,
                            maximized: None,
                            fullscreen: Some(true),
                            activated: None,
                        },
                    })
                    &&& t.commands[n + 1] == (Command::SendConfigure { window: w })
                    &&& t.commands[n + 2] == (Command::RaiseWindow { window: w, activate: false })
                },
                None => {
                    &&& t.toplevels == s.toplevels
                    &&& t.commands.len() > n + 1
                    &&& t.commands[n] == (Command::SendConfigure { window: w })
                    &&& t.commands[n + 1] == (Command::RaiseWindow { window: w, activate: false })
                },
            }
        }),
{
    lemma_lies(s.elements);
    let t = s.fullscreen_request(w, serial);
    let n = s.commands.len() as int;
    if !s.fullscreen_ignored(w) {
        let c = (match s.output_geometry() {
            Some(geo) => s.set_pending(w, PendingChange::fullscreen(geo.size)).set_mode(
                w,
                WindowMode::Fullscreen,
            ),
            None => s,
        }).send_configure(w);
        let r = c.raise_window(w, false);
        lemma_raised_on_top(s.elements, w);
        lemma_moves(s.elements, w, Point { x: 0, y: 0 });
        assert(space::stacked(r.elements, w));
        lemma_raised_on_top(r.elements, w);
        lemma_moves(r.elements, w, Point { x: 0, y: 0 });
        lemma_others(s.elements, w);
        lemma_others(r.elements, w);
        lemma_others(t.elements, w);
        if whole_output(s) is Some {
            assert(r.elements.last().window == w);
            assert(r.toplevels[w].mode == WindowMode::Fullscreen);
            assert(r.active_fullscreen_window() == Some(w));
            assert(!r.focus_refused(w));
        }
        assert(r.commands =~= t.commands.take(r.commands.len() as int));
        assert(forall|k: int| 0 <= k < r.commands.len() ==> #[trigger] t.commands[k]
            == r.commands[k]);
        assert(s.commands =~= t.commands.take(n));
    }
}

/// A toplevel that asks to leave fullscreen is maximized then if it is a window that can fill the
/// zone; a dialog, a tooltip and a fixed-size window float and pick their size in the zone. One that
/// is not fullscreen hears nothing.
pub proof fn law_unfullscreen_request(s: StateView, w: u64)
    requires
        s.toplevels.contains_key(w),
    ensures
        ({
            let t = s.unfullscreen_request(w);
            let zone = s.outputs[0].zone;
            let fills = s.windows[w].parent is None && !(s.toplevels[w].kind is Transient)
                && arrangement::can_fill(s.windows[w].max_size, zone.size);
            &&& s.toplevels[w].mode != WindowMode::Fullscreen ==> t == s
            &&& s.toplevels[w].mode == WindowMode::Fullscreen && s.outputs.len() == 0 ==> t == (
            StateView {
                windows: after_configure(s, w),
                commands: s.commands.push(Command::SendConfigure { window: w }),
                ..s
            })
            &&& s.toplevels[w].mode == WindowMode::Fullscreen && s.outputs.len() > 0 ==> t == (
            StateView {
                windows: after_configure(s, w),
                toplevels: after_mode(
                    s,
                    w,
                    if fills {
                        WindowMode::Maximized
                    } else {
                        WindowMode::Floating
                    },
                ),
                commands: s.commands + seq![
                    Command::SetPending {
                        window: w,
                        change: PendingChange {
                            size: if fills {
                                SizeChange::To(zone.size)
                            } else {
                                SizeChange::Clear
                            },
                            bounds: if fills {
                                None
                            } else {
                                Some(zone.size)
                            },
                            maximized: Some(fills),
                            fullscreen: Some(false),
                            activated: None,
                        },
                    },
                    Command::SendConfigure { window: w },
                ],
                ..s
            })
        }),
{
}

/// A new toplevel is told how large the zone is and nothing else; it is neither stacked nor focused
/// before its first commit.
pub proof fn law_new_toplevel_waits(s: StateView, w: u64)
    ensures
        s.new_toplevel(w) == (StateView {
            toplevels: s.toplevels.insert(
                w,
                WindowState {
                    kind: WindowKind::Normal,
                    mode: WindowMode::Floating,
                    mapped: false,
                    modal: false,
                },
            ),
            commands: if s.outputs.len() > 0 {
                s.commands.push(
                    Command::SetPending {
                        window: w,
                        change: PendingChange {
                            size: SizeChange::Keep,
                            bounds: Some(s.outputs[0].zone.size),
                            maximized: None,
                            fullscreen: None,
                            activated: None,
                        },
                    },
                )
            } else {
                s.commands
            },
            ..s
        }),
{
}

/// A later commit of a parentless window that is neither a tooltip nor fullscreen follows its size
/// hints: if what its client committed disagrees with whether it can fill the zone, it is maximized
/// or released, told so, and put in the middle of the zone when it is released. If it agrees, or it
/// was not configured yet, nothing changes.
pub proof fn law_commit_follows_size_hints(
    s: StateView,
    w: u64,
    pointer: Option<Point>,
    serial: u32,
)
    requires
        s.wf(),
        s.toplevels.contains_key(w),
        s.toplevels[w].mapped,
        !(s.toplevels[w].kind is Transient),
        s.windows[w].parent is None,
    ensures
        ({
            let t = s.toplevel_commit(w, pointer, serial);
            let zone = s.outputs[0].zone;
            let fills = arrangement::can_fill(s.windows[w].max_size, zone.size);
            let outdated = {
                &&& s.outputs.len() > 0
                &&& s.windows[w].initial_configure_sent
                &&& s.toplevels[w].mode != WindowMode::Fullscreen
                &&& fills != s.windows[w].committed_maximized
            };
            let n = s.commands.len() as int;
            &&& !outdated ==> t == s
            &&& outdated ==> {
                &&& t.toplevels == after_mode(
                    s,
                    w,
                    if fills {
                        WindowMode::Maximized
                    } else {
                        WindowMode::Floating
                    },
                )
                &&& t.active_window == s.active_window
                &&& t.commands.len() == if fills {
                    n + 2
                } else {
                    n + 3
                }
                &&& s.commands.is_prefix_of(t.commands)
                &&& t.commands[n] == (Command::SetPending {
                    window: w,
                    change: PendingChange {
                        size: if fills {
                            SizeChange::To(zone.size)
                        } else {
                            SizeChange::Clear
                        },
                        bounds: if fills {
                            None
                        } else {
                            Some(zone.size)
                        },
                        maximized: Some(fills),
                        fullscreen: None,
                        activated: None,
                    },
                })
                &&& t.commands[n + 1] == (Command::SendPendingConfigure { window: w })
                &&& fills ==> t.elements == s.elements
                &&& arrangement::others(t.elements, w) == arrangement::others(s.elements, w)
            }
            &&& outdated && !fills && placement_laws::center_in_range(
                s.windows[w].geometry.size,
                zone,
            ) ==> {
                &&& t.elements.len() == s.elements.len()
                &&& t.commands[n + 2] is RelocateWindow
                &&& t.commands[n + 2]->RelocateWindow_window == w
                &&& arrangement::centered_in(
                    t.commands[n + 2]->RelocateWindow_loc,
                    s.windows[w].geometry.size,
                    zone,
                )
                &&& forall|i: int|
                    0 <= i < s.elements.len() ==> (#[trigger] t.elements[i]).window
                        == s.elements[i].window && (t.elements[i].window == w
                        ==> arrangement::centered_in(
                        t.elements[i].loc,
                        s.windows[w].geometry.size,
                        zone,
                    ))
            }
        }),
{
    reveal(StateView::toplevel_commit);
    let t = s.toplevel_commit(w, pointer, serial);
    let n = s.commands.len() as int;
    assert(s.keep_transient_inside(w) == s);
    assert(s.commands =~= t.commands.take(n));
    if let Some(zone) = s.zone() {
        if placement_laws::center_in_range(s.windows[w].geometry.size, zone) {
            lemma_zone_loc(s, w, zone);
        }
        let loc = zone.centered_spec(s.windows[w].geometry);
        lemma_moves(s.elements, w, loc);
        lemma_others(s.elements, w);
        lemma_others(space::relocated(s.elements, w, loc), w);
        if space::stacked(s.elements, w) {
            let l = space::level(s.elements, w);
            assert(s.elements[l].window == w);
            let r = space::relocated(s.elements, w, loc);
            assert(r[l].window == w);
            crate::space::lemma_level(r, l);
            assert(space::unmapped(r, w) =~= space::unmapped(s.elements, w));
            assert forall|i: int| 0 <= i < s.elements.len() implies (#[trigger] r[i]).window
                == s.elements[i].window && (r[i].window == w ==> r[i].loc == loc) by {}
        } else {
            assert forall|i: int| 0 <= i < s.elements.len() implies (
            #[trigger] s.elements[i]).window != w by {}
        }
    }
}

/// Whether `to` is `from` moved as little as needed for a length `len` to lie between `lo` and `hi`.
pub open spec fn moved_inside(from: int, to: int, len: int, lo: int, hi: int) -> bool {
    &&& lo <= to && to + len <= hi
    &&& lo <= from && from + len <= hi ==> to == from
    &&& from < lo ==> to == lo
    &&& from + len > hi && from >= lo ==> to + len == hi
}

/// A later commit of a tooltip that has room on the output moves it onto the output, as little as
/// needed; one without room, or without an output, stays where it is. Nothing else changes.
pub proof fn law_tooltip_is_moved_inside(
    s: StateView,
    w: u64,
    pointer: Option<Point>,
    serial: u32,
)
    requires
        s.toplevels.contains_key(w),
        s.toplevels[w].mapped,
        s.toplevels[w].kind is Transient,
        s.windows[w].parent is None,
        whole_output(s) matches Some(area) ==> {
            &&& area.loc.x + area.size.w <= i32::MAX
            &&& area.loc.y + area.size.h <= i32::MAX
            &&& s.windows[w].geometry.size.w >= 0
            &&& s.windows[w].geometry.size.h >= 0
        },
    ensures
        ({
            let t = s.toplevel_commit(w, pointer, serial);
            let from = s.toplevels[w].kind->Transient_0;
            let to = t.toplevels[w].kind->Transient_0;
            let size: Size = s.windows[w].geometry.size;
            let room = whole_output(s) matches Some(area) && size.w <= area.size.w && size.h
                <= area.size.h;
            &&& t == (StateView {
                toplevels: s.toplevels.insert(
                    w,
                    WindowState { kind: WindowKind::Transient(to), ..s.toplevels[w] },
                ),
                ..s
            })
            &&& room ==> {
                let area = whole_output(s)->0;
                &&& moved_inside(
                    from.x as int,
                    to.x as int,
                    size.w as int,
                    area.loc.x as int,
                    area.loc.x + area.size.w,
                )
                &&& moved_inside(
                    from.y as int,
                    to.y as int,
                    size.h as int,
                    area.loc.y as int,
                    area.loc.y + area.size.h,
                )
            }
            &&& !room ==> to == from
        }),
{
    reveal(StateView::toplevel_commit);
    let t = s.toplevel_commit(w, pointer, serial);
    assert(t == s.keep_transient_inside(w));
    assert(s.toplevels =~= s.toplevels.insert(w, s.toplevels[w]));
}

/// A tooltip that got a title, an application id or a parent becomes a window or a dialog, and is
/// stacked; one that did not stays a tooltip. Windows and dialogs are left alone.
pub proof fn law_named_tooltip_becomes_window(
    s: StateView,
    w: u64,
    pointer: Option<Point>,
    serial: u32,
)
    requires
        s.wf(),
        s.toplevels.contains_key(w),
        !arrangement::present(s.elements, w),
    ensures
        ({
            let t = s.promote_transient(w, pointer, serial);
            let nameless = s.windows[w].parent is None && s.windows[w].title@ == Seq::<
                char,
            >::empty() && s.windows[w].app_id@ == Seq::<char>::empty();
            &&& !(s.toplevels[w].kind is Transient) ==> t == s
            &&& s.toplevels[w].kind is Transient ==> {
                &&& t.toplevels[w].kind is Transient <==> nameless
                &&& arrangement::present(t.elements, w) <==> !nameless
                &&& t.toplevels[w].mapped
                &&& t.toplevels[w].kind == WindowKind::Dialog <==> s.windows[w].parent is Some
                &&& t.toplevels[w].mode == WindowMode::Maximized <==> {
                    &&& !nameless
                    &&& s.windows[w].parent is None
                    &&& s.outputs.len() > 0 ==> arrangement::can_fill(
                        s.windows[w].max_size,
                        s.outputs[0].zone.size,
                    )
                }
            }
        }),
{
    lemma_lies(s.elements);
    if s.is_anonymous(w) {
        assert(s.windows[w].title@ =~= Seq::<char>::empty());
        assert(s.windows[w].app_id@ =~= Seq::<char>::empty());
    } else {
        crate::handlers::xdg_shell::mapping_laws::lemma_stacked(s, w, serial);
        let st = s.stack_toplevel(w, serial);
        lemma_lies(st.elements);
        crate::handlers::xdg_shell::mapping_laws::lemma_centers(st, w);
        lemma_lies(s.map_toplevel(w, serial).elements);
    }
}

/// A window that is no known toplevel can ask for a mode, but has none: it is sent a configure where
/// there is no area to fill, and nothing happens where there is one that it is too small for, if it
/// has a parent, or if it asks to leave a mode.
pub proof fn law_modes_of_unknown_windows(s: StateView, w: u64, serial: u32)
    requires
        !s.toplevels.contains_key(w),
    ensures
        ({
            let configured = StateView {
                windows: after_configure(s, w),
                commands: s.commands.push(Command::SendConfigure { window: w }),
                ..s
            };
            &&& s.unmaximize_request(w) == s
            &&& s.unfullscreen_request(w) == s
            &&& s.windows[w].parent is Some ==> s.maximize_request(w) == s
                && s.fullscreen_request(w, serial) == s
            &&& s.windows[w].parent is None && s.outputs.len() == 0 ==> s.maximize_request(w)
                == configured
            &&& s.windows[w].parent is None && whole_output(s) is None ==> s.fullscreen_request(
                w,
                serial,
            ) == configured
            &&& s.outputs.len() > 0 && !arrangement::can_fill(
                s.windows[w].max_size,
                s.outputs[0].zone.size,
            ) ==> s.maximize_request(w) == s
            &&& whole_output(s) is Some && !arrangement::can_fill(
                s.windows[w].max_size,
                whole_output(s)->0.size,
            ) ==> s.fullscreen_request(w, serial) == s
        }),
{
}

/// A toplevel that is not in the stack can become fullscreen: it is proposed the size of the output
/// and sent a configure, and no window moves.
pub proof fn law_unstacked_fullscreen_request(s: StateView, w: u64, serial: u32)
    requires
        s.wf(),
        s.toplevels.contains_key(w),
        !arrangement::present(s.elements, w),
        s.windows[w].parent is None,
        !(s.toplevels[w].kind is Transient),
        s.toplevels[w].mode != WindowMode::Fullscreen,
        whole_output(s) is Some,
        arrangement::can_fill(s.windows[w].max_size, whole_output(s)->0.size),
    ensures
        ({
            let t = s.fullscreen_request(w, serial);
            let n = s.commands.len() as int;
            &&& t.elements == s.elements
            &&& t.toplevels == after_mode(s, w, WindowMode::Fullscreen)
            &&& s.commands.is_prefix_of(t.commands)
            &&& t.commands.len() > n + 2
            &&& t.commands[n] == (Command::SetPending {
                window: w,
                change: PendingChange {
                    size: SizeChange::To(whole_output(s)->0.size),
                    bounds: None,
                    maximized: None,
                    fullscreen: Some(true),
                    activated: None,
                },
            })
            &&& t.commands[n + 1] == (Command::SendConfigure { window: w })
            &&& t.commands[n + 2] == (Command::RaiseWindow { window: w, activate: false })
        }),
{
    let t = s.fullscreen_request(w, serial);
    let n = s.commands.len() as int;
    assert(!space::stacked(s.elements, w));
    assert(s.commands =~= t.commands.take(n));
}

/// A toplevel that becomes fullscreen is focused as any window is, once it has been told so and put
/// on top.
pub proof fn law_fullscreen_takes_focus(s: StateView, w: u64, serial: u32)
    requires
        s.toplevels.contains_key(w),
        s.windows[w].parent is None,
        !(s.toplevels[w].kind is Transient),
        s.toplevels[w].mode != WindowMode::Fullscreen,
        whole_output(s) matches Some(area) ==> arrangement::can_fill(
            s.windows[w].max_size,
            area.size,
        ),
    ensures
        s.fullscreen_request(w, serial) == (StateView {
            windows: after_configure(s, w),
            toplevels: if whole_output(s) is Some {
                after_mode(s, w, WindowMode::Fullscreen)
            } else {
                s.toplevels
            },
            elements: space::raised(s.elements, w),
            commands: s.commands + (if whole_output(s) is Some {
                seq![
                    Command::SetPending {
                        window: w,
                        change: PendingChange {
                            size: SizeChange::To(whole_output(s)->0.size),
                            bounds: None,
                            maximized: None,
                            fullscreen: Some(true),
                            activated: None,
                        },
                    },
                ]
            } else {
                Seq::empty()
            }) + seq![
                Command::SendConfigure { window: w },
                Command::RaiseWindow { window: w, activate: false },
            ],
            ..s
        }).focus_window(w, serial),
{
    let b = (match s.output_geometry() {
        Some(geo) => s.set_pending(w, PendingChange::fullscreen(geo.size)).set_mode(
            w,
            WindowMode::Fullscreen,
        ),
        None => s,
    }).send_configure(w).raise_window(w, false);
    assert(s.fullscreen_request(w, serial) == b.focus_window(w, serial));
    assert(b.commands =~= s.commands + (if whole_output(s) is Some {
        seq![
            Command::SetPending {
                window: w,
                change: PendingChange::fullscreen(whole_output(s)->0.size),
            },
        ]
    } else {
        Seq::empty()
    }) + seq![
        Command::SendConfigure { window: w },
        Command::RaiseWindow { window: w, activate: false },
    ]);
}

/// A later commit of a tooltip moves it onto the output, as little as needed, if it has room there,
/// and then centers it if it got a parent in the meantime.
pub proof fn law_tooltip_commit_in_steps(
    s: StateView,
    w: u64,
    pointer: Option<Point>,
    serial: u32,
)
    requires
        s.toplevels.contains_key(w),
        s.toplevels[w].mapped,
        s.toplevels[w].kind is Transient,
        whole_output(s) matches Some(area) ==> {
            &&& area.loc.x + area.size.w - s.windows[w].geometry.size.w <= 0x7fff_ffff
            &&& area.loc.y + area.size.h - s.windows[w].geometry.size.h <= 0x7fff_ffff
        },
    ensures
        ({
            let t = s.toplevel_commit(w, pointer, serial);
            let from = s.toplevels[w].kind->Transient_0;
            let to = t.toplevels[w].kind->Transient_0;
            let size: Size = s.windows[w].geometry.size;
            let room = whole_output(s) matches Some(area) && size.w <= area.size.w && size.h
                <= area.size.h;
            &&& t.toplevels[w].kind is Transient
            &&& t == (StateView {
                toplevels: s.toplevels.insert(
                    w,
                    WindowState { kind: WindowKind::Transient(to), ..s.toplevels[w] },
                ),
                ..s
            }).center_child(w)
            &&& room ==> {
                let area = whole_output(s)->0;
                &&& moved_inside(
                    from.x as int,
                    to.x as int,
                    size.w as int,
                    area.loc.x as int,
                    area.loc.x + area.size.w,
                )
                &&& moved_inside(
                    from.y as int,
                    to.y as int,
                    size.h as int,
                    area.loc.y as int,
                    area.loc.y + area.size.h,
                )
            }
            &&& !room ==> to == from
        }),
{
    reveal(StateView::toplevel_commit);
    let k = s.keep_transient_inside(w);
    let t = s.toplevel_commit(w, pointer, serial);
    assert(k.recheck_maximize(w) == k);
    assert(t == k.center_child(w));
    let to = t.toplevels[w].kind->Transient_0;
    assert(k.toplevels =~= s.toplevels.insert(
        w,
        WindowState { kind: WindowKind::Transient(to), ..s.toplevels[w] },
    ));
}

/// A tooltip that is looked at again is handled as with its first commit; any other window is left
/// alone.
pub proof fn law_tooltips_are_looked_at_again(
    s: StateView,
    w: u64,
    pointer: Option<Point>,
    serial: u32,
)
    ensures
        s.promote_transient(w, pointer, serial) == if s.toplevels.contains_key(w)
            && s.toplevels[w].kind is Transient {
            s.first_commit(w, pointer, serial)
        } else {
            s
        },
{
}

} // verus!
