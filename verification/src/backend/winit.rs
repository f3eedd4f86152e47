//! The desktop in a window of another desktop.
//!
//! A resize is handled in two steps: the output gets its new mode and the layers are laid out anew
//! first; the windows follow once it is known what area the layers left.

use vstd::prelude::*;
use crate::command::Command;
use crate::geometry::Size;
use crate::input::InputEvent;
use crate::render::{live_surfaces, output_elements, OutputElements};
use crate::render;
use crate::space::Element;
use crate::state::{LockSurface, State, StateView};

verus! {

broadcast use vstd::std_specs::hash::group_hash_axioms;

/// The refresh rate of the output, in millihertz.
pub const REFRESH: i32 = 60_000;

/// Something that happened to the window the desktop is shown in.
#[derive(Debug, PartialEq, Eq)]
pub enum WinitEvent {
    Resized { size: Size },
    /// The output has the new size, and the layers are laid out for it.
    Arranged { size: Size },
    Input { event: InputEvent },
    Redraw,
    CloseRequested,
    Other,
}

impl StateView {
    /// The output given the new size, and the layers laid out for it.
    pub open spec fn resized(self, size: Size) -> StateView {
        self.emit(Command::SetOutputMode { size, refresh: REFRESH }).emit(Command::ArrangeLayers)
    }

    /// The lock surfaces told the new size, while the session is locked.
    pub open spec fn lock_surfaces_resized(self, size: Size) -> StateView {
        if self.is_locked {
            self.emit_all(
                self.lock_surfaces.map_values(
                    |s: LockSurface|
                        Command::ConfigureLockSurface {
                            surface: s.surface,
                            width: size.w as u32,
                            height: size.h as u32,
                        },
                ),
            )
        } else {
            self
        }
    }

    /// The windows and lock surfaces fitted to the new size.
    pub open spec fn arranged(self, size: Size) -> StateView {
        self.reflow_toplevels().lock_surfaces_resized(size)
    }

    /// The frame drawn and presented.
    pub open spec fn presented(self) -> StateView {
        self.emit(Command::BeginFrame { clear: render::frame_color(self.is_locked) }).emit_all(
            render::frame_elements(self.is_locked, self.lock_surfaces).map_values(
                |element: OutputElements| Command::Draw { element },
            ),
        ).emit(Command::SubmitFrame)
    }

    /// Whether the locking client is to hear that the session is locked: it waits for that, and the
    /// screen shows one of its surfaces.
    pub open spec fn lock_confirmed(self) -> bool {
        self.is_locked && self.pending_lock && exists|i: int|
            0 <= i < self.lock_surfaces.len() && (#[trigger] self.lock_surfaces[i]).alive
    }

    /// What was shown told so.
    pub open spec fn frames_sent(self) -> StateView {
        if self.is_locked {
            let s = self.emit_all(
                render::live_locks(self.lock_surfaces).map_values(
                    |s: LockSurface| Command::SendLockFrame { surface: s.surface },
                ),
            );
            if self.lock_confirmed() {
                StateView { pending_lock: false, ..s.emit(Command::ConfirmLock) }
            } else {
                s
            }
        } else {
            self.emit_all(
                self.elements.map_values(
                    |e: Element| Command::SendWindowFrame { window: e.window },
                ),
            ).emit(Command::SendLayerFrames)
        }
    }

    /// A frame drawn and everything done that is done once per frame.
    pub open spec fn redraw(self) -> StateView {
        self.presented().frames_sent().emit(Command::RefreshSpace).emit(
            Command::CleanupPopups,
        ).emit(Command::FlushClients).emit(Command::RequestRedraw)
    }

    /// Whether `event` can be handled: an input event is about this desktop, and a new layout stays
    /// within the coordinate range.
    pub open spec fn can_handle(self, event: WinitEvent) -> bool {
        match event {
            WinitEvent::Arranged { .. } => self.reflow_fits(),
            WinitEvent::Input { event } => self.can_happen(event),
            _ => true,
        }
    }

    /// What `event` does.
    pub open spec fn winit_event(self, event: WinitEvent, serial: u32) -> StateView {
        match event {
            WinitEvent::Resized { size } => self.resized(size),
            WinitEvent::Arranged { size } => self.arranged(size),
            WinitEvent::Input { event } => self.process_input_event(event, serial),
            WinitEvent::Redraw => self.redraw(),
            WinitEvent::CloseRequested => self.emit(Command::StopLoop),
            WinitEvent::Other => self,
        }
    }
}

impl State {
    /// The output takes the new size.
    pub fn resized(&mut self, size: Size)
        requires
            old(self)@.wf(),
        ensures
            final(self)@ == old(self)@.resized(size),
            final(self)@.wf(),
    {
        self.emit(Command::SetOutputMode { size, refresh: REFRESH });
        self.emit(Command::ArrangeLayers);
    }

    /// The lock surfaces, dead or alive, hear of the new size.
    pub fn resize_lock_surfaces(&mut self, size: Size)
        requires
            old(self)@.wf(),
        ensures
            final(self)@ == old(self)@.lock_surfaces_resized(size),
            final(self)@.wf(),
    {
        if !self.is_locked {
            return;
        }
        let ghost before = self@;
        let ghost tell = |s: LockSurface|
            (Command::ConfigureLockSurface {
                surface: s.surface,
                width: size.w as u32,
                height: size.h as u32,
            });
        let n: usize = self.lock_surfaces.len();
        let mut i: usize = 0;
        assert(self@ =~= before.emit_all(before.lock_surfaces.take(0).map_values(tell)));
        while i < n
            invariant
                n == before.lock_surfaces.len(),
                i <= n,
                tell == (|s: LockSurface|
                    (Command::ConfigureLockSurface {
                        surface: s.surface,
                        width: size.w as u32,
                        height: size.h as u32,
                    })),
                self@ == before.emit_all(
                    before.lock_surfaces.take(i as int).map_values(tell),
                ),
            decreases n - i,
        {
            let surface: u64 = self.lock_surfaces[i].surface;
            self.emit(
                Command::ConfigureLockSurface {
                    surface,
                    width: #[verifier::truncate] (size.w as u32),
                    height: #[verifier::truncate] (size.h as u32),
                },
            );
            i = i + 1;
            assert(self@.commands =~= before.emit_all(
                before.lock_surfaces.take(i as int).map_values(tell),
            ).commands);
        }
        assert(before.lock_surfaces.take(n as int) =~= before.lock_surfaces);
    }

    /// The windows and lock surfaces are fitted to the new size.
    pub fn arranged(&mut self, size: Size)
        requires
            old(self)@.wf(),
            old(self)@.reflow_fits(),
        ensures
            final(self)@ == old(self)@.arranged(size),
            final(self)@.wf(),
            final(self)@.windows.dom() == old(self)@.windows.dom(),
    {
        self.reflow_toplevels();
        self.resize_lock_surfaces(size);
    }

    /// Draws and presents a frame.
    fn present(&mut self)
        requires
            old(self)@.wf(),
        ensures
            final(self)@ == old(self)@.presented(),
            final(self)@.wf(),
    {
        let ghost before = self@;
        let ghost draw = |element: OutputElements| (Command::Draw { element });
        let (elements, clear) = output_elements(self.is_locked, &self.lock_surfaces);
        self.emit(Command::BeginFrame { clear });
        let ghost begun = self@;
        let n: usize = elements.len();
        let mut i: usize = 0;
        assert(self@ =~= begun.emit_all(elements@.take(0).map_values(draw)));
        while i < n
            invariant
                n == elements@.len(),
                i <= n,
                draw == (|element: OutputElements| (Command::Draw { element })),
                self@ == begun.emit_all(elements@.take(i as int).map_values(draw)),
            decreases n - i,
        {
            self.emit(Command::Draw { element: elements[i] });
            i = i + 1;
            assert(self@.commands =~= begun.emit_all(
                elements@.take(i as int).map_values(draw),
            ).commands);
        }
        assert(elements@.take(n as int) =~= elements@);
        self.emit(Command::SubmitFrame);
    }

    /// Tells what was shown that it was shown.
    fn send_frames(&mut self)
        requires
            old(self)@.wf(),
        ensures
            final(self)@ == old(self)@.frames_sent(),
            final(self)@.wf(),
    {
        if self.is_locked {
            self.send_lock_frames();
        } else {
            self.send_window_frames();
            self.emit(Command::SendLayerFrames);
        }
    }

    fn send_window_frames(&mut self)
        requires
            old(self)@.wf(),
        ensures
            final(self)@ == old(self)@.emit_all(
                old(self)@.elements.map_values(
                    |e: Element| (Command::SendWindowFrame { window: e.window }),
                ),
            ),
            final(self)@.wf(),
    {
        let ghost before = self@;
        let ghost tell = |e: Element| (Command::SendWindowFrame { window: e.window });
        let n: usize = self.space.elements.len();
        let mut i: usize = 0;
        assert(self@ =~= before.emit_all(before.elements.take(0).map_values(tell)));
        while i < n
            invariant
                n == before.elements.len(),
                i <= n,
                tell == (|e: Element| (Command::SendWindowFrame { window: e.window })),
                self@ == before.emit_all(before.elements.take(i as int).map_values(tell)),
            decreases n - i,
        {
            let window: u64 = self.space.elements[i].window;
            self.emit(Command::SendWindowFrame { window });
            i = i + 1;
            assert(self@.commands =~= before.emit_all(
                before.elements.take(i as int).map_values(tell),
            ).commands);
        }
        assert(before.elements.take(n as int) =~= before.elements);
    }

    fn send_lock_frames(&mut self)
        requires
            old(self)@.wf(),
            old(self)@.is_locked,
        ensures
            final(self)@ == old(self)@.frames_sent(),
            final(self)@.wf(),
    {
        let ghost before = self@;
        let ghost live_ones = render::live_locks(before.lock_surfaces);
        let ghost tell = |s: LockSurface| (Command::SendLockFrame { surface: s.surface });
        let live = live_surfaces(&self.lock_surfaces);
        let n: usize = live.len();
        let mut i: usize = 0;
        assert(self@ =~= before.emit_all(live_ones.take(0).map_values(tell)));
        while i < n
            invariant
                n == live@.len(),
                live@ == live_ones.map_values(|s: LockSurface| s.surface),
                i <= n,
                tell == (|s: LockSurface| (Command::SendLockFrame { surface: s.surface })),
                self@ == before.emit_all(live_ones.take(i as int).map_values(tell)),
            decreases n - i,
        {
            self.emit(Command::SendLockFrame { surface: live[i] });
            i = i + 1;
            assert(self@.commands =~= before.emit_all(
                live_ones.take(i as int).map_values(tell),
            ).commands);
        }
        proof {
            assert(live_ones.take(n as int) =~= live_ones);
            lemma_some_live(before.lock_surfaces);
        }
        if n > 0 && self.pending_lock {
            self.emit(Command::ConfirmLock);
            self.pending_lock = false;
        }
    }

    /// Draws a frame and does everything that is done once per frame.
    pub fn redraw(&mut self)
        requires
            old(self)@.wf(),
        ensures
            final(self)@ == old(self)@.redraw(),
            final(self)@.wf(),
    {
        self.present();
        self.send_frames();
        self.emit(Command::RefreshSpace);
        self.emit(Command::CleanupPopups);
        self.emit(Command::FlushClients);
        self.emit(Command::RequestRedraw);
    }

    /// Handles what happened to the window the desktop is shown in.
    pub fn winit_event(&mut self, event: WinitEvent, serial: u32)
        requires
            old(self)@.wf(),
            old(self)@.can_handle(event),
        ensures
            final(self)@ == old(self)@.winit_event(event, serial),
            final(self)@.wf(),
            final(self)@.windows.dom() == old(self)@.windows.dom(),
    {
        match event {
            WinitEvent::Resized { size } => self.resized(size),
            WinitEvent::Arranged { size } => self.arranged(size),
            WinitEvent::Input { event } => self.process_input_event(event, serial),
            WinitEvent::Redraw => self.redraw(),
            WinitEvent::CloseRequested => self.emit(Command::StopLoop),
            WinitEvent::Other => {},
        }
    }
}

/// There is a live one among the lock surfaces just if the live ones are not none.
proof fn lemma_some_live(surfaces: Seq<LockSurface>)
    ensures
        render::live_locks(surfaces).len() > 0 <==> exists|i: int|
            0 <= i < surfaces.len() && (#[trigger] surfaces[i]).alive,
{
    let live = render::live_locks(surfaces);
    crate::sequences::lemma_filtered(surfaces, |s: LockSurface| s.alive);
    if live.len() > 0 {
        let k = surfaces.index_of(live[0]);
        assert(surfaces[k].alive);
    }
    if exists|i: int| 0 <= i < surfaces.len() && (#[trigger] surfaces[i]).alive {
        let i = choose|i: int| 0 <= i < surfaces.len() && (#[trigger] surfaces[i]).alive;
        assert(live.contains(surfaces[i]));
    }
}

/// The locking client hears that the session is locked once, and only with a frame that shows a
/// live surface of its.
pub proof fn law_lock_is_confirmed_once(s: StateView)
    requires
        !s.commands.contains(Command::ConfirmLock),
    ensures
        s.redraw().commands.contains(Command::ConfirmLock) <==> s.lock_confirmed(),
        s.lock_confirmed() ==> !s.redraw().pending_lock && !s.redraw().lock_confirmed(),
{
    let p = s.presented();
    let f = p.frames_sent();
    let r = s.redraw();
    let k = s.commands.len() as int;
    assert(p.lock_confirmed() == s.lock_confirmed());
    assert forall|i: int| 0 <= i < p.commands.len() implies #[trigger] p.commands[i]
        != Command::ConfirmLock by {
        if i < k {
            assert(s.commands[i] == p.commands[i]);
        }
    }
    assert forall|i: int|
        p.commands.len() <= i < f.commands.len() && !s.lock_confirmed() implies #[trigger]
    f.commands[i] != Command::ConfirmLock by {}
    if s.lock_confirmed() {
        let at = f.commands.len() - 1;
        assert(f.commands[at] == Command::ConfirmLock);
        assert(r.commands[at] == Command::ConfirmLock);
    } else {
        assert forall|i: int| 0 <= i < r.commands.len() implies #[trigger] r.commands[i]
            != Command::ConfirmLock by {
            if i < p.commands.len() {
                assert(r.commands[i] == p.commands[i]);
            } else if i < f.commands.len() {
                assert(r.commands[i] == f.commands[i]);
            }
        }
    }
}

/// While the session is locked, no frame draws the plane or tells a window or layer that it was
/// shown.
pub proof fn law_locked_redraw_leaves_desktop_out(s: StateView, i: int)
    requires
        s.is_locked,
        s.commands.len() <= i < s.redraw().commands.len(),
    ensures
        s.redraw().commands[i] != (Command::Draw { element: OutputElements::Space }),
        !(s.redraw().commands[i] is SendWindowFrame),
        s.redraw().commands[i] != Command::SendLayerFrames,
{
}

} // verus!
