//! What a frame, a resize and an event of the surrounding desktop bring about.

use vstd::prelude::*;
use crate::backend::winit::WinitEvent;
use crate::command::Command;
use crate::geometry::Size;
use crate::input::InputEvent;
use crate::render;
use crate::render::{ClearColor, OutputElements};
use crate::space::Element;
use crate::state::{LockSurface, StateView};

verus! {

/// A resize gives the output the new size at sixty hertz and lays the layers out anew.
pub proof fn law_resize_sets_mode_and_arranges(s: StateView, size: Size)
    ensures
        s.resized(size) == (StateView {
            commands: s.commands + seq![
                Command::SetOutputMode { size, refresh: 60000 },
                Command::ArrangeLayers,
            ],
            ..s
        }),
{
}

/// After a new layout the lock surfaces, dead or alive, hear the new size in their order, just while
/// the session is locked. Nothing else changes.
pub proof fn law_lock_surfaces_hear_size(s: StateView, size: Size)
    requires
        size.w >= 0,
        size.h >= 0,
    ensures
        ({
            let t = s.lock_surfaces_resized(size);
            let n = s.commands.len() as int;
            &&& t == (StateView { commands: t.commands, ..s })
            &&& s.commands.is_prefix_of(t.commands)
            &&& !s.is_locked ==> t.commands == s.commands
            &&& s.is_locked ==> t.commands.len() == n + s.lock_surfaces.len()
            &&& forall|i: int|
                s.is_locked && 0 <= i < s.lock_surfaces.len() ==> {
                    let c = t.commands[n + i];
                    &&& c is ConfigureLockSurface
                    &&& c->ConfigureLockSurface_surface == (#[trigger] s.lock_surfaces[i]).surface
                    &&& c->ConfigureLockSurface_width == size.w
                    &&& c->ConfigureLockSurface_height == size.h
                }
        }),
{
    let t = s.lock_surfaces_resized(size);
    let n = s.commands.len() as int;
    assert(s.commands =~= t.commands.take(n));
    assert forall|i: int| s.is_locked && 0 <= i < s.lock_surfaces.len() implies {
        let c = t.commands[n + i];
        &&& c is ConfigureLockSurface
        &&& c->ConfigureLockSurface_surface == (#[trigger] s.lock_surfaces[i]).surface
        &&& c->ConfigureLockSurface_width == size.w
        &&& c->ConfigureLockSurface_height == size.h
    } by {
        let w = size.w;
        let h = size.h;
        assert(w as u32 == w) by (bit_vector)
            requires
                w >= 0,
        ;
        assert(h as u32 == h) by (bit_vector)
            requires
                h >= 0,
        ;
        assert(t.commands[n + i] == (Command::ConfigureLockSurface {
            surface: s.lock_surfaces[i].surface,
            width: size.w as u32,
            height: size.h as u32,
        }));
    }
}

/// A new layout places the windows anew, and then tells the lock surfaces.
pub proof fn law_layout_places_windows(s: StateView, size: Size)
    ensures
        s.arranged(size).elements == s.reflow_toplevels().elements,
        s.arranged(size).windows == s.reflow_toplevels().windows,
        !s.is_locked ==> s.arranged(size) == s.reflow_toplevels(),
        s.arranged(size) == s.reflow_toplevels().lock_surfaces_resized(size),
{
    if s.outputs.len() > 0 {
        lemma_reflow_keeps_lock(
            s,
            crate::space::windows_of(s.elements),
            s.outputs[0].zone,
        );
    }
}

proof fn lemma_reflow_keeps_lock(s: StateView, ws: Seq<u64>, zone: crate::geometry::Rect)
    ensures
        s.reflow_windows(ws, zone).is_locked == s.is_locked,
    decreases ws.len(),
{
    if ws.len() > 0 {
        lemma_reflow_keeps_lock(s, ws.drop_last(), zone);
    }
}

/// The surfaces of the live ones among `locks`, in their order.
pub open spec fn live(locks: Seq<LockSurface>) -> Seq<u64>
    decreases locks.len(),
{
    if locks.len() == 0 {
        Seq::empty()
    } else if locks.last().alive {
        live(locks.drop_last()).push(locks.last().surface)
    } else {
        live(locks.drop_last())
    }
}

proof fn lemma_live(locks: Seq<LockSurface>)
    ensures
        live(locks).len() == render::live_locks(locks).len(),
        forall|i: int|
            0 <= i < live(locks).len() ==> #[trigger] live(locks)[i] == render::live_locks(
                locks,
            )[i].surface,
        live(locks).len() > 0 <==> exists|i: int|
            0 <= i < locks.len() && (#[trigger] locks[i]).alive,
    decreases locks.len(),
{
    reveal(Seq::filter);
    if locks.len() > 0 {
        let rest = locks.drop_last();
        lemma_live(rest);
        assert(forall|i: int| 0 <= i < rest.len() ==> #[trigger] rest[i] == locks[i]);
        assert(locks[locks.len() - 1] == locks.last());
        if live(rest).len() > 0 {
            let i = choose|i: int| 0 <= i < rest.len() && (#[trigger] rest[i]).alive;
            assert(locks[i].alive);
        }
        if !locks.last().alive && exists|i: int| 0 <= i < locks.len() && (#[trigger] locks[i]).alive {
            let i = choose|i: int| 0 <= i < locks.len() && (#[trigger] locks[i]).alive;
            assert(rest[i].alive);
        }
    }
}

/// A frame shows the plane on the background of the desktop; while the session is locked, it shows
/// the live lock surfaces, in their order, on the solid color.
pub proof fn law_frame_contents(is_locked: bool, locks: Seq<LockSurface>)
    ensures
        !is_locked ==> render::frame_elements(is_locked, locks) == seq![OutputElements::Space],
        !is_locked ==> render::frame_color(is_locked) == ClearColor::Desktop,
        is_locked ==> render::frame_color(is_locked) == ClearColor::Locked,
        is_locked ==> render::frame_elements(is_locked, locks).len() == live(locks).len(),
        forall|i: int|
            is_locked && 0 <= i < live(locks).len() ==> #[trigger] render::frame_elements(
                is_locked,
                locks,
            )[i] == (OutputElements::Surface { surface: live(locks)[i] }),
{
    lemma_live(locks);
}

/// What a frame of the desktop asks for: draw it, present it, tell every window from the bottom up
/// and the layers that they were shown, and do what is done once per frame.
pub proof fn law_desktop_frame(s: StateView)
    requires
        !s.is_locked,
    ensures
        s.redraw() == (StateView {
            commands: s.commands + seq![
                Command::BeginFrame { clear: ClearColor::Desktop },
                Command::Draw { element: OutputElements::Space },
                Command::SubmitFrame,
            ] + Seq::new(
                s.elements.len(),
                |i: int| Command::SendWindowFrame { window: s.elements[i].window },
            ) + seq![
                Command::SendLayerFrames,
                Command::RefreshSpace,
                Command::CleanupPopups,
                Command::FlushClients,
                Command::RequestRedraw,
            ],
            ..s
        }),
{
    let p = s.presented();
    assert(p.commands =~= s.commands + seq![
        Command::BeginFrame { clear: ClearColor::Desktop },
        Command::Draw { element: OutputElements::Space },
        Command::SubmitFrame,
    ]);
    assert(p.elements.map_values(|e: Element| Command::SendWindowFrame { window: e.window })
        =~= Seq::new(
        s.elements.len(),
        |i: int| Command::SendWindowFrame { window: s.elements[i].window },
    ));
    assert(s.redraw().commands =~= s.commands + seq![
        Command::BeginFrame { clear: ClearColor::Desktop },
        Command::Draw { element: OutputElements::Space },
        Command::SubmitFrame,
    ] + Seq::new(
        s.elements.len(),
        |i: int| Command::SendWindowFrame { window: s.elements[i].window },
    ) + seq![
        Command::SendLayerFrames,
        Command::RefreshSpace,
        Command::CleanupPopups,
        Command::FlushClients,
        Command::RequestRedraw,
    ]);
}

/// What a frame of a locked session asks for: draw the live lock surfaces, present them, tell each
/// that it was shown, tell the locking client that the session is locked if it waits for that and
/// there is something to show, and do what is done once per frame.
pub proof fn law_locked_frame(s: StateView)
    requires
        s.is_locked,
    ensures
        ({
            let shown = live(s.lock_surfaces);
            let confirmed = s.pending_lock && exists|i: int|
                0 <= i < s.lock_surfaces.len() && (#[trigger] s.lock_surfaces[i]).alive;
            s.redraw() == (StateView {
                pending_lock: s.pending_lock && !confirmed,
                commands: s.commands + seq![
                    Command::BeginFrame { clear: ClearColor::Locked },
                ] + Seq::new(
                    shown.len(),
                    |i: int|
                        Command::Draw {
                            element: OutputElements::Surface { surface: shown[i] },
                        },
                ) + seq![Command::SubmitFrame] + Seq::new(
                    shown.len(),
                    |i: int| Command::SendLockFrame { surface: shown[i] },
                ) + (if confirmed {
                    seq![Command::ConfirmLock]
                } else {
                    Seq::empty()
                }) + seq![
                    Command::RefreshSpace,
                    Command::CleanupPopups,
                    Command::FlushClients,
                    Command::RequestRedraw,
                ],
                ..s
            })
        }),
{
    let shown = live(s.lock_surfaces);
    let confirmed = s.pending_lock && exists|i: int|
        0 <= i < s.lock_surfaces.len() && (#[trigger] s.lock_surfaces[i]).alive;
    lemma_live(s.lock_surfaces);
    let draws = Seq::new(
        shown.len(),
        |i: int| Command::Draw { element: OutputElements::Surface { surface: shown[i] } },
    );
    let tells = Seq::new(shown.len(), |i: int| Command::SendLockFrame { surface: shown[i] });
    assert(render::frame_elements(true, s.lock_surfaces).map_values(
        |element: OutputElements| Command::Draw { element },
    ) =~= draws);
    assert(render::live_locks(s.lock_surfaces).map_values(
        |x: LockSurface| Command::SendLockFrame { surface: x.surface },
    ) =~= tells);
    let p = s.presented();
    assert(p.commands =~= s.commands + seq![Command::BeginFrame { clear: ClearColor::Locked }]
        + draws + seq![Command::SubmitFrame]);
    assert(p.lock_confirmed() == confirmed);
    let f = p.frames_sent();
    assert(f.commands =~= p.commands + tells + (if confirmed {
        seq![Command::ConfirmLock]
    } else {
        Seq::empty()
    }));
    assert(s.redraw().commands =~= f.commands + seq![
        Command::RefreshSpace,
        Command::CleanupPopups,
        Command::FlushClients,
        Command::RequestRedraw,
    ]);
}

/// Closing the window the desktop is shown in ends the event loop; what else happens to it is handled
/// as what it is, and can always be handled unless it is input or a new layout.
pub proof fn law_events_of_surrounding_desktop(
    s: StateView,
    size: Size,
    event: InputEvent,
    serial: u32,
)
    ensures
        s.winit_event(WinitEvent::CloseRequested, serial) == (StateView {
            commands: s.commands.push(Command::StopLoop),
            ..s
        }),
        s.winit_event(WinitEvent::Other, serial) == s,
        s.winit_event(WinitEvent::Redraw, serial) == s.redraw(),
        s.winit_event(WinitEvent::Resized { size }, serial) == s.resized(size),
        s.winit_event(WinitEvent::Arranged { size }, serial) == s.arranged(size),
        s.winit_event(WinitEvent::Input { event }, serial) == s.process_input_event(event, serial),
        s.can_handle(WinitEvent::CloseRequested),
        s.can_handle(WinitEvent::Other),
        s.can_handle(WinitEvent::Redraw),
        s.can_handle(WinitEvent::Resized { size }),
        s.can_handle(WinitEvent::Arranged { size }) == s.reflow_fits(),
        s.can_handle(WinitEvent::Input { event }) == s.can_happen(event),
{
}

/// The lock surfaces hear the size as the bits of its lengths are, whatever their sign.
pub proof fn law_lock_surfaces_hear_bits(s: StateView, size: Size, i: int)
    requires
        s.is_locked,
        0 <= i < s.lock_surfaces.len(),
    ensures
        s.lock_surfaces_resized(size).commands[s.commands.len() + i] == (
        Command::ConfigureLockSurface {
            surface: s.lock_surfaces[i].surface,
            width: size.w as u32,
            height: size.h as u32,
        }),
{
}

} // verus!
