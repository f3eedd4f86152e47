//! What the compositor asks its display side to do.
//!
//! The window management never talks to clients, to the renderer or to input devices itself. It
//! queues commands, which the display side carries out in order.

use vstd::prelude::*;
use crate::geometry::{Point, Rect, Size, WidePoint};
use crate::render::{ClearColor, OutputElements};
use crate::toplevel::PendingChange;

verus! {

/// A surface and where its origin is on the plane.
#[derive(Clone, Copy, Debug, PartialEq, Eq, Structural)]
pub struct Hit {
    pub surface: u64,
    pub loc: WidePoint,
}

/// What a scroll event comes from.
#[derive(Clone, Copy, Debug, PartialEq, Eq, Structural)]
pub enum AxisSource {
    Finger,
    Continuous,
    Wheel,
    WheelTilt,
}

/// What one axis contributes to a scroll frame.
#[derive(Clone, Copy, Debug, PartialEq, Eq, Structural)]
pub struct AxisStep {
    /// The frame carries the amount scrolled.
    pub value: bool,
    /// The frame carries the amount in wheel-click fractions.
    pub v120: bool,
    /// The frame says that scrolling stopped.
    pub stop: bool,
}

/// One thing to be done by the display side.
#[derive(Clone, Copy, Debug, PartialEq, Eq)]
pub enum Command {
    /// Change the state proposed to a toplevel with its next configure.
    SetPending { window: u64, change: PendingChange },
    /// Send a toplevel its proposed state.
    SendConfigure { window: u64 },
    /// Send a toplevel its proposed state if it differs from what was sent last, or if nothing
    /// was sent yet.
    SendPendingConfigure { window: u64 },
    /// Ask a toplevel to close.
    SendClose { window: u64 },
    /// Change the proposed activated state of a toplevel.
    SetActivated { window: u64, active: bool },
    /// Put a window on top of the stack.
    MapWindow { window: u64, loc: Point, activate: bool },
    /// Put a window directly below another one, without activating it.
    MapBelow { window: u64, loc: Point, reference: u64 },
    /// Take a window out of the stack.
    UnmapWindow { window: u64 },
    /// Move a window to the top of the stack.
    RaiseWindow { window: u64, activate: bool },
    /// Move a window directly above another one, unless it is above it already.
    RaiseAbove { window: u64, reference: u64 },
    /// Move a window without changing the stacking order.
    RelocateWindow { window: u64, loc: Point },
    /// Let a window take in the state its client committed.
    WindowCommitted { window: u64 },
    /// Give a surface keyboard focus, or take focus away.
    SetKeyboardFocus { focus: Option<u64>, serial: u32 },
    /// Map a new layer surface on an output.
    MapLayer { surface: u64, output: u64 },
    /// Unmap a layer surface from its output.
    UnmapLayer { surface: u64, output: u64 },
    /// Send a layer surface its size.
    SendLayerConfigure { surface: u64 },
    /// Send a popup its initial configure.
    SendPopupConfigure { popup: u64 },
    /// Start managing a popup.
    TrackPopup { popup: u64 },
    /// Adopt the rules of a popup's new positioner, and the geometry it gives, relative to the
    /// popup's parent.
    AdoptPositioner { popup: u64, geometry: Rect },
    /// Give a popup a geometry, relative to its parent.
    SetPopupGeometry { popup: u64, geometry: Rect },
    /// Tell a popup that it was repositioned.
    SendRepositioned { popup: u64, token: u32 },
    /// Hand a key event to the focused client.
    KeyboardInput { key: u32, pressed: bool, serial: u32, time: u32 },
    /// Move the pointer over `under`.
    PointerMotion { under: Option<Hit>, serial: u32, time: u32 },
    /// Hand a button event to the client under the pointer.
    PointerButton { button: u32, pressed: bool, serial: u32, time: u32 },
    /// Hand a scroll event to the client under the pointer.
    PointerAxis { source: AxisSource, horizontal: AxisStep, vertical: AxisStep, time: u32 },
    /// End a group of pointer events.
    PointerFrame,
    /// Give the output a new mode.
    SetOutputMode { size: Size, refresh: i32 },
    /// Lay the layer surfaces out anew.
    ArrangeLayers,
    /// Send a lock surface its size.
    ConfigureLockSurface { surface: u64, width: u32, height: u32 },
    /// Start drawing a frame.
    BeginFrame { clear: ClearColor },
    /// Draw a part of the frame.
    Draw { element: OutputElements },
    /// Present the frame.
    SubmitFrame,
    /// Tell a window that it was presented.
    SendWindowFrame { window: u64 },
    /// Tell every layer surface of the output that it was presented.
    SendLayerFrames,
    /// Tell a lock surface that it was presented.
    SendLockFrame { surface: u64 },
    /// Tell the locking client that the session is locked.
    ConfirmLock,
    /// Update which outputs the windows are on.
    RefreshSpace,
    /// Forget dead popups.
    CleanupPopups,
    /// Write what is queued for the clients.
    FlushClients,
    /// Ask for another frame.
    RequestRedraw,
    /// Leave the event loop.
    StopLoop,
}

} // verus!
