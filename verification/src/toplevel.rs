//! Toplevel windows: what a client declares about one, how the compositor treats it, and the
//! changes the compositor makes to the state it is about to propose to the client.

use vstd::prelude::*;
use crate::geometry::{Point, Rect, Size};

verus! {

/// How a window occupies its output.
#[derive(Clone, Copy, Debug, PartialEq, Eq, Structural)]
pub enum WindowMode {
    Floating,
    Maximized,
    Fullscreen,
}

/// What role a window plays.
#[derive(Clone, Copy, Debug, PartialEq, Eq, Structural)]
pub enum WindowKind {
    Normal,
    /// A window with a parent, kept centered above it.
    Dialog,
    /// An anonymous, parentless window (a tooltip) that floats at a position of its own and never
    /// joins the stack.
    Transient(Point),
}

/// How the compositor treats a toplevel.
#[derive(Clone, Copy, Debug, PartialEq, Eq, Structural)]
pub struct WindowState {
    pub kind: WindowKind,
    pub mode: WindowMode,
    /// Whether the first commit has been handled.
    pub mapped: bool,
    pub modal: bool,
}

/// What is known of the client side of a toplevel.
#[derive(Debug, PartialEq, Eq)]
pub struct Window {
    pub title: String,
    pub app_id: String,
    /// The surface of the parent toplevel.
    pub parent: Option<u64>,
    /// The visible bounds relative to the surface.
    pub geometry: Rect,
    /// The declared maximum size; zero means unbounded.
    pub max_size: Size,
    pub initial_configure_sent: bool,
    /// Whether the state the client last committed is maximized.
    pub committed_maximized: bool,
    pub alive: bool,
    /// The output the window is on.
    pub output: Option<u64>,
}

/// What happens to a proposed size.
#[derive(Clone, Copy, Debug, PartialEq, Eq, Structural)]
pub enum SizeChange {
    Keep,
    /// The client picks its size.
    Clear,
    To(Size),
}

/// The state proposed to a client with the next configure.
#[derive(Clone, Copy, Debug, PartialEq, Eq)]
pub struct ToplevelState {
    pub size: Option<Size>,
    pub bounds: Option<Size>,
    pub maximized: bool,
    pub fullscreen: bool,
    pub activated: bool,
}

/// A change of the state proposed to a client; what it does not mention stays.
#[derive(Clone, Copy, Debug, PartialEq, Eq)]
pub struct PendingChange {
    pub size: SizeChange,
    pub bounds: Option<Size>,
    pub maximized: Option<bool>,
    pub fullscreen: Option<bool>,
    pub activated: Option<bool>,
}

impl PendingChange {
    /// Recommends staying within `bounds`.
    #[verifier::allow_in_spec]
    pub fn bounded(bounds: Size) -> PendingChange
        returns
            (PendingChange {
                size: SizeChange::Keep,
                bounds: Some(bounds),
                maximized: None,
                fullscreen: None,
                activated: None,
            }),
    {
        PendingChange {
            size: SizeChange::Keep,
            bounds: Some(bounds),
            maximized: None,
            fullscreen: None,
            activated: None,
        }
    }

    /// Proposes `size`.
    #[verifier::allow_in_spec]
    pub fn sized(size: Size) -> PendingChange
        returns
            (PendingChange {
                size: SizeChange::To(size),
                bounds: None,
                maximized: None,
                fullscreen: None,
                activated: None,
            }),
    {
        PendingChange {
            size: SizeChange::To(size),
            bounds: None,
            maximized: None,
            fullscreen: None,
            activated: None,
        }
    }

    /// Maximizes to `size`.
    #[verifier::allow_in_spec]
    pub fn maximize(size: Size) -> PendingChange
        returns
            (PendingChange { maximized: Some(true), ..PendingChange::sized(size) }),
    {
        PendingChange { maximized: Some(true), ..PendingChange::sized(size) }
    }

    /// Makes fullscreen at `size`.
    #[verifier::allow_in_spec]
    pub fn fullscreen(size: Size) -> PendingChange
        returns
            (PendingChange { fullscreen: Some(true), ..PendingChange::sized(size) }),
    {
        PendingChange { fullscreen: Some(true), ..PendingChange::sized(size) }
    }

    /// Returns from fullscreen to maximized at `size`.
    #[verifier::allow_in_spec]
    pub fn restore_maximized(size: Size) -> PendingChange
        returns
            (PendingChange { fullscreen: Some(false), ..PendingChange::maximize(size) }),
    {
        PendingChange { fullscreen: Some(false), ..PendingChange::maximize(size) }
    }

    /// Lets the client pick its size, neither maximized nor fullscreen.
    #[verifier::allow_in_spec]
    pub fn float() -> PendingChange
        returns
            (PendingChange { fullscreen: Some(false), ..PendingChange::free() }),
    {
        PendingChange { fullscreen: Some(false), ..PendingChange::free() }
    }

    /// Lets the client pick its size within `bounds`, neither maximized nor fullscreen.
    #[verifier::allow_in_spec]
    pub fn float_within(bounds: Size) -> PendingChange
        returns
            (PendingChange { bounds: Some(bounds), ..PendingChange::float() }),
    {
        PendingChange { bounds: Some(bounds), ..PendingChange::float() }
    }

    /// Lets the client pick its size, not maximized.
    #[verifier::allow_in_spec]
    pub fn free() -> PendingChange
        returns
            (PendingChange {
                size: SizeChange::Clear,
                bounds: None,
                maximized: Some(false),
                fullscreen: None,
                activated: None,
            }),
    {
        PendingChange {
            size: SizeChange::Clear,
            bounds: None,
            maximized: Some(false),
            fullscreen: None,
            activated: None,
        }
    }

    /// Lets the client pick its size within `bounds`, not maximized.
    #[verifier::allow_in_spec]
    pub fn free_within(bounds: Size) -> PendingChange
        returns
            (PendingChange { bounds: Some(bounds), ..PendingChange::free() }),
    {
        PendingChange { bounds: Some(bounds), ..PendingChange::free() }
    }

    /// Sets or clears the activated state.
    #[verifier::allow_in_spec]
    pub fn activation(active: bool) -> PendingChange
        returns
            (PendingChange {
                size: SizeChange::Keep,
                bounds: None,
                maximized: None,
                fullscreen: None,
                activated: Some(active),
            }),
    {
        PendingChange {
            size: SizeChange::Keep,
            bounds: None,
            maximized: None,
            fullscreen: None,
            activated: Some(active),
        }
    }

    /// What a window that fills (or cannot fill) a zone of extent `zone` is proposed.
    #[verifier::allow_in_spec]
    pub fn for_zone(fills: bool, zone: Size) -> PendingChange
        returns
            (if fills {
                PendingChange::maximize(zone)
            } else {
                PendingChange::free_within(zone)
            }),
    {
        if fills {
            PendingChange::maximize(zone)
        } else {
            PendingChange::free_within(zone)
        }
    }
}

/// `change` where it says something, else `old`.
pub open spec fn overridden(old: bool, change: Option<bool>) -> bool {
    match change {
        Some(b) => b,
        None => old,
    }
}

impl ToplevelState {
    /// The state after `change`.
    pub open spec fn changed(self, change: PendingChange) -> ToplevelState {
        ToplevelState {
            size: match change.size {
                SizeChange::Keep => self.size,
                SizeChange::Clear => None,
                SizeChange::To(size) => Some(size),
            },
            bounds: if change.bounds is Some {
                change.bounds
            } else {
                self.bounds
            },
            maximized: overridden(self.maximized, change.maximized),
            fullscreen: overridden(self.fullscreen, change.fullscreen),
            activated: overridden(self.activated, change.activated),
        }
    }

    /// Makes `change`.
    pub fn apply(&mut self, change: PendingChange)
        ensures
            *final(self) == old(self).changed(change),
    {
        match change.size {
            SizeChange::Keep => {},
            SizeChange::Clear => {
                self.size = None;
            },
            SizeChange::To(size) => {
                self.size = Some(size);
            },
        }
        if change.bounds.is_some() {
            self.bounds = change.bounds;
        }
        if let Some(b) = change.maximized {
            self.maximized = b;
        }
        if let Some(b) = change.fullscreen {
            self.fullscreen = b;
        }
        if let Some(b) = change.activated {
            self.activated = b;
        }
    }
}

/// Whatever was proposed before, a maximize proposes a maximized window of the given size; making
/// the window fullscreen and back gives the same proposal.
pub proof fn law_fullscreen_returns_to_maximized(before: ToplevelState, zone: Size, output: Size)
    ensures
        before.changed(PendingChange::maximize(zone)).maximized,
        before.changed(PendingChange::maximize(zone)).size == Some(zone),
        before.changed(PendingChange::maximize(zone)).changed(
            PendingChange::fullscreen(output),
        ).fullscreen,
        !before.fullscreen ==> before.changed(PendingChange::maximize(zone)).changed(
            PendingChange::fullscreen(output),
        ).changed(PendingChange::restore_maximized(zone)) == before.changed(
            PendingChange::maximize(zone),
        ),
{
}

} // verus!
