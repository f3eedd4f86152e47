//! The compositor state and its elementary steps.

use std::collections::HashMap;

use vstd::prelude::*;
use crate::command::Command;
use crate::geometry::{Point, Rect};
use crate::handlers::foreign_toplevel::manager::{ForeignToplevelManagerState, ForeignView};
use crate::space::{Element, Output, Space};
use crate::toplevel::{PendingChange, Window, WindowMode, WindowState};

verus! {

broadcast use vstd::std_specs::hash::group_hash_axioms;

/// A surface shown in place of the desktop while the session is locked.
#[derive(Clone, Copy, Debug, PartialEq, Eq, Structural)]
pub struct LockSurface {
    pub surface: u64,
    pub alive: bool,
}

/// Everything the window management decides from. Windows, layers and popups are named by the
/// numbers of their surfaces.
pub struct State {
    /// The client side of every toplevel.
    pub windows: HashMap<u64, Window>,
    /// How every toplevel is treated.
    pub toplevels: HashMap<u64, WindowState>,
    pub space: Space,
    /// The window that gets keyboard focus back when no layer holds it.
    pub active_window: Option<u64>,
    /// The layer surface that takes keyboard focus with the next frame.
    pub layer_shell_on_demand_focus: Option<u64>,
    /// The surface that has keyboard focus.
    pub keyboard_focus: Option<u64>,
    pub is_locked: bool,
    pub lock_surfaces: Vec<LockSurface>,
    /// Whether a client waits to hear that the session is locked.
    pub pending_lock: bool,
    /// What other clients have been told about the toplevels.
    pub foreign_toplevel: ForeignToplevelManagerState,
    /// What the display side has yet to do, oldest first.
    pub commands: Vec<Command>,
}

/// The mathematical value of a [`State`].
#[verifier::ext_equal]
pub struct StateView {
    pub windows: Map<u64, Window>,
    pub toplevels: Map<u64, WindowState>,
    pub outputs: Seq<Output>,
    pub elements: Seq<Element>,
    pub active_window: Option<u64>,
    pub layer_shell_on_demand_focus: Option<u64>,
    pub keyboard_focus: Option<u64>,
    pub is_locked: bool,
    pub lock_surfaces: Seq<LockSurface>,
    pub pending_lock: bool,
    pub foreign: ForeignView,
    pub commands: Seq<Command>,
}

impl View for State {
    type V = StateView;

    open spec fn view(&self) -> StateView {
        StateView {
            windows: self.windows@,
            toplevels: self.toplevels@,
            outputs: self.space.outputs@,
            elements: self.space.elements@,
            active_window: self.active_window,
            layer_shell_on_demand_focus: self.layer_shell_on_demand_focus,
            keyboard_focus: self.keyboard_focus,
            is_locked: self.is_locked,
            lock_surfaces: self.lock_surfaces@,
            pending_lock: self.pending_lock,
            foreign: self.foreign_toplevel@,
            commands: self.commands@,
        }
    }
}

/// The topmost fullscreen window of a stack.
pub open spec fn topmost_fullscreen(es: Seq<Element>, toplevels: Map<u64, WindowState>) -> Option<
    u64,
>
    decreases es.len(),
{
    if es.len() == 0 {
        None
    } else if toplevels.contains_key(es.last().window) && toplevels[es.last().window].mode
        == WindowMode::Fullscreen {
        Some(es.last().window)
    } else {
        topmost_fullscreen(es.drop_last(), toplevels)
    }
}

impl StateView {
    /// No window is stacked twice, every stacked or treated window is known, and the toplevel list
    /// is in order.
    pub open spec fn wf(self) -> bool {
        &&& crate::space::distinct(self.elements)
        &&& forall|w: u64|
            #[trigger] crate::space::stacked(self.elements, w) ==> self.windows.contains_key(w)
        &&& forall|w: u64| #[trigger] self.toplevels.contains_key(w) ==> self.windows.contains_key(w)
        &&& self.foreign.wf()
    }

    /// Whether `es` can be the stack: no window is there twice, and every one is known.
    pub open spec fn can_stack(self, es: Seq<Element>) -> bool {
        &&& crate::space::distinct(es)
        &&& forall|w: u64| #[trigger] crate::space::stacked(es, w) ==> self.windows.contains_key(w)
    }

    /// The area that windows may fill: the non-exclusive zone of the first output.
    pub open spec fn zone(self) -> Option<Rect> {
        if self.outputs.len() > 0 {
            Some(self.outputs[0].zone)
        } else {
            None
        }
    }

    /// The place of the first output on the plane.
    pub open spec fn output_geometry(self) -> Option<Rect> {
        if self.outputs.len() > 0 {
            self.outputs[0].geometry
        } else {
            None
        }
    }

    /// Whether the toplevel `w` is in `mode`.
    pub open spec fn in_mode(self, w: u64, mode: WindowMode) -> bool {
        self.toplevels.contains_key(w) && self.toplevels[w].mode == mode
    }

    pub open spec fn active_fullscreen_window(self) -> Option<u64> {
        topmost_fullscreen(self.elements, self.toplevels)
    }

    /// One more command queued.
    pub open spec fn emit(self, c: Command) -> StateView {
        StateView { commands: self.commands.push(c), ..self }
    }

    /// More commands queued.
    pub open spec fn emit_all(self, cs: Seq<Command>) -> StateView {
        StateView { commands: self.commands + cs, ..self }
    }

    /// `w` has been sent a configure.
    pub open spec fn configured(self, w: u64) -> StateView {
        StateView {
            windows: self.windows.insert(
                w,
                Window { initial_configure_sent: true, ..self.windows[w] },
            ),
            ..self
        }
    }

    pub open spec fn send_configure(self, w: u64) -> StateView {
        self.emit(Command::SendConfigure { window: w }).configured(w)
    }

    pub open spec fn send_pending_configure(self, w: u64) -> StateView {
        self.emit(Command::SendPendingConfigure { window: w }).configured(w)
    }

    pub open spec fn set_pending(self, w: u64, change: PendingChange) -> StateView {
        self.emit(Command::SetPending { window: w, change })
    }

    pub open spec fn set_mode(self, w: u64, mode: WindowMode) -> StateView {
        StateView {
            toplevels: self.toplevels.insert(w, WindowState { mode, ..self.toplevels[w] }),
            ..self
        }
    }

    pub open spec fn map_window(self, w: u64, loc: Point, activate: bool) -> StateView {
        StateView {
            elements: crate::space::mapped(self.elements, w, loc),
            ..self.emit(Command::MapWindow { window: w, loc, activate })
        }
    }

    /// `w` stacked directly below `reference`.
    pub open spec fn map_below(self, w: u64, loc: Point, reference: u64) -> StateView {
        StateView {
            elements: crate::space::mapped_below(self.elements, w, loc, reference),
            ..self.emit(Command::MapBelow { window: w, loc, reference })
        }
    }

    pub open spec fn unmap_window(self, w: u64) -> StateView {
        StateView {
            elements: crate::space::unmapped(self.elements, w),
            ..self.emit(Command::UnmapWindow { window: w })
        }
    }

    pub open spec fn raise_window(self, w: u64, activate: bool) -> StateView {
        StateView {
            elements: crate::space::raised(self.elements, w),
            ..self.emit(Command::RaiseWindow { window: w, activate })
        }
    }

    pub open spec fn raise_above(self, w: u64, reference: u64) -> StateView {
        StateView {
            elements: crate::space::raised_above(self.elements, w, reference),
            ..self.emit(Command::RaiseAbove { window: w, reference })
        }
    }

    pub open spec fn relocate_window(self, w: u64, loc: Point) -> StateView {
        StateView {
            elements: crate::space::relocated(self.elements, w, loc),
            ..self.emit(Command::RelocateWindow { window: w, loc })
        }
    }

    pub open spec fn set_keyboard_focus(self, focus: Option<u64>, serial: u32) -> StateView {
        self.emit(Command::SetKeyboardFocus { focus, serial })
    }
}

/// The topmost fullscreen window is stacked and in the fullscreen mode; where there is none, no
/// stacked window is fullscreen.
pub proof fn lemma_topmost_fullscreen(es: Seq<Element>, toplevels: Map<u64, WindowState>)
    ensures
        topmost_fullscreen(es, toplevels) matches Some(w) ==> crate::space::stacked(es, w)
            && toplevels.contains_key(w) && toplevels[w].mode == WindowMode::Fullscreen,
        topmost_fullscreen(es, toplevels) is None ==> forall|i: int|
            0 <= i < es.len() ==> !(toplevels.contains_key((#[trigger] es[i]).window)
                && toplevels[es[i].window].mode == WindowMode::Fullscreen),
    decreases es.len(),
{
    if es.len() > 0 {
        let rest = es.drop_last();
        lemma_topmost_fullscreen(rest, toplevels);
        assert(forall|i: int| 0 <= i < rest.len() ==> #[trigger] rest[i] == es[i]);
        match topmost_fullscreen(es, toplevels) {
            Some(w) => {
                if es.last().window == w {
                    assert(es[es.len() - 1].window == w);
                } else {
                    let i = crate::space::level(rest, w);
                    assert(es[i].window == w);
                }
            },
            None => {
                assert forall|i: int| 0 <= i < es.len() implies !(toplevels.contains_key(
                    (#[trigger] es[i]).window,
                ) && toplevels[es[i].window].mode == WindowMode::Fullscreen) by {
                    if i < rest.len() {
                        assert(rest[i] == es[i]);
                    }
                }
            },
        }
    }
}

impl State {
    /// An empty, unlocked desktop.
    pub fn new() -> (r: Self)
        ensures
            r@.wf(),
            r@ == (StateView {
                windows: Map::empty(),
                toplevels: Map::empty(),
                outputs: Seq::empty(),
                elements: Seq::empty(),
                active_window: None,
                layer_shell_on_demand_focus: None,
                keyboard_focus: None,
                is_locked: false,
                lock_surfaces: Seq::empty(),
                pending_lock: false,
                foreign: r@.foreign,
                commands: Seq::empty(),
            }),
            r@.foreign.is_empty(),
    {
        State {
            windows: HashMap::new(),
            toplevels: HashMap::new(),
            space: Space::new(),
            active_window: None,
            layer_shell_on_demand_focus: None,
            keyboard_focus: None,
            is_locked: false,
            lock_surfaces: Vec::new(),
            pending_lock: false,
            foreign_toplevel: ForeignToplevelManagerState::new(),
            commands: Vec::new(),
        }
    }

    /// What is known of the client side of the window `w` is `window`.
    pub fn learn_window(&mut self, w: u64, window: Window)
        requires
            old(self)@.wf(),
        ensures
            final(self)@ == (StateView {
                windows: old(self)@.windows.insert(w, window),
                ..old(self)@
            }),
            final(self)@.wf(),
    {
        self.windows.insert(w, window);
    }

    /// The window `w`, which has left the stack, is forgotten.
    pub fn forget_window(&mut self, w: u64)
        requires
            old(self)@.wf(),
            !crate::space::stacked(old(self)@.elements, w),
            !old(self)@.toplevels.contains_key(w),
        ensures
            final(self)@ == (StateView { windows: old(self)@.windows.remove(w), ..old(self)@ }),
            final(self)@.wf(),
    {
        self.windows.remove(&w);
    }

    /// The outputs are `outputs`.
    pub fn set_outputs(&mut self, outputs: Vec<Output>)
        requires
            old(self)@.wf(),
        ensures
            final(self)@ == (StateView { outputs: outputs@, ..old(self)@ }),
            final(self)@.wf(),
    {
        self.space.outputs = outputs;
    }

    /// The windows are stacked as `elements` says, bottom first. Nothing changes unless every one
    /// of them is known and none is there twice; returns whether it is so.
    pub fn set_stack(&mut self, elements: Vec<Element>) -> (done: bool)
        requires
            old(self)@.wf(),
        ensures
            done == old(self)@.can_stack(elements@),
            done ==> final(self)@ == (StateView { elements: elements@, ..old(self)@ }),
            !done ==> final(self)@ == old(self)@,
            final(self)@.wf(),
    {
        let n: usize = elements.len();
        let mut i: usize = 0;
        while i < n
            invariant
                self@ == old(self)@,
                self@.wf(),
                n == elements@.len(),
                i <= n,
                self@.can_stack(elements@.take(i as int)),
            decreases n - i,
        {
            let w: u64 = elements[i].window;
            let ghost before = elements@.take(i as int);
            let ghost more = elements@.take(i + 1);
            assert(more[i as int].window == w);
            assert(crate::space::stacked(more, w));
            assert(crate::space::stacked(elements@, w)) by {
                assert(elements@[i as int].window == w);
            }
            if !self.windows.contains_key(&w) {
                return false;
            }
            let mut j: usize = 0;
            while j < i
                invariant
                    self@ == old(self)@,
                    self@.wf(),
                    n == elements@.len(),
                    i < n,
                    j <= i,
                    w == elements@[i as int].window,
                    forall|k: int| 0 <= k < j ==> (#[trigger] elements@[k]).window != w,
                decreases i - j,
            {
                if elements[j].window == w {
                    assert(!crate::space::distinct(elements@)) by {
                        assert(elements@[j as int].window == elements@[i as int].window);
                    }
                    return false;
                }
                j = j + 1;
            }
            proof {
                assert(forall|k: int| 0 <= k < i ==> #[trigger] more[k] == before[k]);
                assert forall|v: u64| #[trigger] crate::space::stacked(
                    more,
                    v,
                ) implies self@.windows.contains_key(v) by {
                    let k = crate::space::level(more, v);
                    if k < i {
                        assert(before[k].window == v);
                        assert(crate::space::stacked(before, v));
                    }
                }
                assert forall|a: int, b: int|
                    #![trigger more[a], more[b]]
                    0 <= a < more.len() && 0 <= b < more.len() && more[a].window
                        == more[b].window implies a == b by {
                    if a < i && b < i {
                        assert(before[a].window == before[b].window);
                    } else {
                        assert(elements@[a].window == elements@[b].window);
                    }
                }
            }
            i = i + 1;
        }
        assert(elements@.take(n as int) =~= elements@);
        self.space.elements = elements;
        true
    }

    /// The surface `focus` has the keyboard focus.
    pub fn note_focus(&mut self, focus: Option<u64>)
        requires
            old(self)@.wf(),
        ensures
            final(self)@ == (StateView { keyboard_focus: focus, ..old(self)@ }),
            final(self)@.wf(),
    {
        self.keyboard_focus = focus;
    }

    /// Whether the session is locked, by which surfaces, and whether a client waits to hear so.
    pub fn note_lock(&mut self, locked: bool, surfaces: Vec<LockSurface>, pending: bool)
        requires
            old(self)@.wf(),
        ensures
            final(self)@ == (StateView {
                is_locked: locked,
                lock_surfaces: surfaces@,
                pending_lock: pending,
                ..old(self)@
            }),
            final(self)@.wf(),
    {
        self.is_locked = locked;
        self.lock_surfaces = surfaces;
        self.pending_lock = pending;
    }

    /// Takes out what is queued, oldest first.
    pub fn take_commands(&mut self) -> (r: Vec<Command>)
        requires
            old(self)@.wf(),
        ensures
            r@ == old(self)@.commands,
            final(self)@ == (StateView { commands: Seq::empty(), ..old(self)@ }),
            final(self)@.wf(),
    {
        let mut r: Vec<Command> = Vec::new();
        std::mem::swap(&mut r, &mut self.commands);
        r
    }

    /// The area that windows may fill: the non-exclusive zone of the first output.
    pub fn zone(&self) -> (r: Option<Rect>)
        ensures
            r == self@.zone(),
    {
        if self.space.outputs.len() > 0 {
            Some(self.space.outputs[0].zone)
        } else {
            None
        }
    }

    /// The place of the first output on the plane.
    pub fn output_geometry(&self) -> (r: Option<Rect>)
        ensures
            r == self@.output_geometry(),
    {
        if self.space.outputs.len() > 0 {
            self.space.outputs[0].geometry
        } else {
            None
        }
    }

    /// Whether the toplevel `w` is in `mode`.
    pub(crate) fn in_mode(&self, w: u64, mode: WindowMode) -> (r: bool)
        ensures
            r == self@.in_mode(w, mode),
    {
        match self.toplevels.get(&w) {
            Some(ws) => ws.mode == mode,
            None => false,
        }
    }

    /// The fullscreen window that holds the keyboard focus: the topmost one of the stack.
    pub fn active_fullscreen_window(&self) -> (r: Option<u64>)
        ensures
            r == self@.active_fullscreen_window(),
    {
        let mut i: usize = self.space.elements.len();
        assert(self@.elements.take(i as int) =~= self@.elements);
        while i > 0
            invariant
                i <= self@.elements.len(),
                topmost_fullscreen(self@.elements.take(i as int), self@.toplevels)
                    == self@.active_fullscreen_window(),
            decreases i,
        {
            let w: u64 = self.space.elements[i - 1].window;
            assert(self@.elements.take(i as int).drop_last() =~= self@.elements.take(i - 1));
            assert(self@.elements.take(i as int).last() == self@.elements[i - 1]);
            if self.in_mode(w, WindowMode::Fullscreen) {
                return Some(w);
            }
            i = i - 1;
        }
        None
    }

    pub(crate) fn emit(&mut self, c: Command)
        ensures
            final(self)@ == old(self)@.emit(c),
    {
        self.commands.push(c);
    }

    fn mark_configured(&mut self, w: u64)
        requires
            old(self)@.windows.contains_key(w),
        ensures
            final(self)@ == old(self)@.configured(w),
    {
        match self.windows.remove(&w) {
            Some(win) => {
                self.windows.insert(w, Window { initial_configure_sent: true, ..win });
            },
            None => {},
        }
    }

    pub(crate) fn send_configure(&mut self, w: u64)
        requires
            old(self)@.wf(),
            old(self)@.windows.contains_key(w),
        ensures
            final(self)@ == old(self)@.send_configure(w),
            final(self)@.wf(),
            final(self)@.windows.dom() == old(self)@.windows.dom(),
    {
        self.emit(Command::SendConfigure { window: w });
        self.mark_configured(w);
    }

    pub(crate) fn send_pending_configure(&mut self, w: u64)
        requires
            old(self)@.wf(),
            old(self)@.windows.contains_key(w),
        ensures
            final(self)@ == old(self)@.send_pending_configure(w),
            final(self)@.wf(),
            final(self)@.windows.dom() == old(self)@.windows.dom(),
    {
        self.emit(Command::SendPendingConfigure { window: w });
        self.mark_configured(w);
    }

    pub(crate) fn set_pending(&mut self, w: u64, change: PendingChange)
        ensures
            final(self)@ == old(self)@.set_pending(w, change),
    {
        self.emit(Command::SetPending { window: w, change });
    }

    pub(crate) fn set_mode(&mut self, w: u64, mode: WindowMode)
        requires
            old(self)@.wf(),
            old(self)@.toplevels.contains_key(w),
        ensures
            final(self)@ == old(self)@.set_mode(w, mode),
            final(self)@.wf(),
    {
        match self.toplevels.get(&w) {
            Some(ws) => {
                let ws: WindowState = *ws;
                self.toplevels.insert(w, WindowState { mode, ..ws });
            },
            None => {},
        }
    }

    pub(crate) fn map_window(&mut self, w: u64, loc: Point, activate: bool)
        requires
            old(self)@.wf(),
            old(self)@.windows.contains_key(w),
        ensures
            final(self)@ == old(self)@.map_window(w, loc, activate),
            final(self)@.wf(),
    {
        proof {
            crate::space::lemma_moves(self@.elements, w, loc);
        }
        self.space.map_element(w, loc);
        self.emit(Command::MapWindow { window: w, loc, activate });
    }

    pub(crate) fn map_below(&mut self, w: u64, loc: Point, reference: u64)
        requires
            old(self)@.wf(),
            old(self)@.windows.contains_key(w),
        ensures
            final(self)@ == old(self)@.map_below(w, loc, reference),
            final(self)@.wf(),
    {
        proof {
            crate::space::lemma_mapped_below(self@.elements, w, loc, reference);
        }
        self.space.map_element_below(w, loc, reference);
        self.emit(Command::MapBelow { window: w, loc, reference });
    }

    pub(crate) fn unmap_window(&mut self, w: u64)
        requires
            old(self)@.wf(),
        ensures
            final(self)@ == old(self)@.unmap_window(w),
            final(self)@.wf(),
    {
        proof {
            crate::space::lemma_moves(self@.elements, w, Point { x: 0, y: 0 });
        }
        self.space.unmap_elem(w);
        self.emit(Command::UnmapWindow { window: w });
    }

    pub(crate) fn raise_window(&mut self, w: u64, activate: bool)
        requires
            old(self)@.wf(),
        ensures
            final(self)@ == old(self)@.raise_window(w, activate),
            final(self)@.wf(),
    {
        proof {
            crate::space::lemma_moves(self@.elements, w, Point { x: 0, y: 0 });
        }
        self.space.raise_element(w);
        self.emit(Command::RaiseWindow { window: w, activate });
    }

    pub(crate) fn raise_above(&mut self, w: u64, reference: u64)
        requires
            old(self)@.wf(),
        ensures
            final(self)@ == old(self)@.raise_above(w, reference),
            final(self)@.wf(),
    {
        proof {
            crate::space::lemma_raised_above(self@.elements, w, reference);
        }
        self.space.raise_element_above(w, reference);
        self.emit(Command::RaiseAbove { window: w, reference });
    }

    pub(crate) fn relocate_window(&mut self, w: u64, loc: Point)
        requires
            old(self)@.wf(),
        ensures
            final(self)@ == old(self)@.relocate_window(w, loc),
            final(self)@.wf(),
    {
        proof {
            crate::space::lemma_moves(self@.elements, w, loc);
        }
        self.space.relocate_element(w, loc);
        self.emit(Command::RelocateWindow { window: w, loc });
    }

    pub(crate) fn set_keyboard_focus(&mut self, focus: Option<u64>, serial: u32)
        ensures
            final(self)@ == old(self)@.set_keyboard_focus(focus, serial),
    {
        self.emit(Command::SetKeyboardFocus { focus, serial });
    }
}

} // verus!
