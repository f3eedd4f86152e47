//! Surface commits.

use vstd::prelude::*;
use crate::command::Command;
use crate::geometry::Point;
use crate::handlers::{layer_shell, xdg_shell};
use crate::state::{State, StateView};

verus! {

broadcast use vstd::std_specs::hash::group_hash_axioms;

/// What is known of a committed surface that is a popup.
#[derive(Clone, Copy, Debug, PartialEq, Eq, Structural)]
pub struct PopupCommit {
    /// It is a popup of the desktop shell, not of an input method.
    pub xdg: bool,
    pub initial_configure_sent: bool,
}

/// The surface at the root of a tree: the last of the ancestors, or the surface itself.
pub open spec fn root_of(surface: u64, ancestors: Seq<u64>) -> u64 {
    if ancestors.len() == 0 {
        surface
    } else {
        ancestors.last()
    }
}

impl StateView {
    /// The stacked window that a commit of a surface with this root concerns. Commits of
    /// synchronized subsurfaces take effect with their parents.
    pub open spec fn committed_window(self, root: u64, is_sync_subsurface: bool) -> Option<u64> {
        if !is_sync_subsurface && crate::space::stacked(self.elements, root) {
            Some(root)
        } else {
            None
        }
    }

    /// The dialog to be centered after a commit.
    pub open spec fn child_to_center(self, root: u64, is_sync_subsurface: bool) -> Option<u64> {
        match self.committed_window(root, is_sync_subsurface) {
            Some(w) => if self.windows[w].parent is Some {
                Some(w)
            } else {
                None
            },
            None => None,
        }
    }

    pub open spec fn begin_commit(self, root: u64, is_sync_subsurface: bool) -> StateView {
        match self.committed_window(root, is_sync_subsurface) {
            Some(window) => self.emit(Command::WindowCommitted { window }),
            None => self,
        }
    }

    pub open spec fn popup_commit(self, surface: u64, popup: Option<PopupCommit>) -> StateView {
        if popup matches Some(p) && p.xdg && !p.initial_configure_sent {
            self.emit(Command::SendPopupConfigure { popup: surface })
        } else {
            self
        }
    }

    /// The commit as far as the role of the surface goes: a layer surface, else a toplevel.
    pub open spec fn role_commit(
        self,
        surface: u64,
        layout_changed: bool,
        pointer: Option<Point>,
        serial: u32,
    ) -> StateView {
        if self.is_layer(surface) {
            self.layer_commit(surface, layout_changed)
        } else {
            self.toplevel_commit(surface, pointer, serial)
        }
    }

    pub open spec fn commit(
        self,
        surface: u64,
        child: Option<u64>,
        popup: Option<PopupCommit>,
        layout_changed: bool,
        pointer: Option<Point>,
        serial: u32,
    ) -> StateView {
        let s = self.popup_commit(surface, popup).role_commit(
            surface,
            layout_changed,
            pointer,
            serial,
        );
        match child {
            Some(w) => s.center_child(w),
            None => s,
        }
    }

    /// Whether a commit stays within the coordinate range.
    pub open spec fn commit_fits(
        self,
        surface: u64,
        child: Option<u64>,
        popup: Option<PopupCommit>,
        layout_changed: bool,
        pointer: Option<Point>,
        serial: u32,
    ) -> bool {
        let s = self.popup_commit(surface, popup);
        &&& s.layer_commit_fits(surface, layout_changed)
        &&& !s.is_layer(surface) ==> s.toplevel_commit_fits(surface, pointer, serial)
        &&& child matches Some(w) ==> s.role_commit(
            surface,
            layout_changed,
            pointer,
            serial,
        ).child_fits(w)
    }
}

impl State {
    /// The first half of a commit: lets the window that `surface` belongs to take in what its
    /// client committed. `ancestors` are the parents of `surface` in its subsurface tree, nearest
    /// first. Returns the window if it is a dialog, which has to be centered anew.
    pub fn begin_commit(
        &mut self,
        surface: u64,
        ancestors: &Vec<u64>,
        is_sync_subsurface: bool,
    ) -> (child: Option<u64>)
        requires
            old(self)@.wf(),
        ensures
            final(self)@ == old(self)@.begin_commit(
                root_of(surface, ancestors@),
                is_sync_subsurface,
            ),
            child == old(self)@.child_to_center(root_of(surface, ancestors@), is_sync_subsurface),
            final(self)@.wf(),
    {
        if is_sync_subsurface {
            return None;
        }
        let n: usize = ancestors.len();
        let root: u64 = if n == 0 {
            surface
        } else {
            ancestors[n - 1]
        };
        if !self.space.contains(root) {
            return None;
        }
        self.emit(Command::WindowCommitted { window: root });
        match self.windows.get(&root) {
            Some(win) => {
                if win.parent.is_some() {
                    Some(root)
                } else {
                    None
                }
            },
            None => None,
        }
    }

    /// The second half of a commit, once windows and popups took in what was committed and the
    /// layers were laid out anew: sends initial configures and runs the layer or the toplevel side
    /// of the commit, then centers the dialog `child`.
    pub fn commit(
        &mut self,
        surface: u64,
        child: Option<u64>,
        popup: Option<PopupCommit>,
        layout_changed: bool,
        pointer: Option<Point>,
        serial: u32,
    )
        requires
            old(self)@.wf(),
            child matches Some(w) ==> old(self)@.windows.contains_key(w),
            old(self)@.commit_fits(surface, child, popup, layout_changed, pointer, serial),
        ensures
            final(self)@ == old(self)@.commit(
                surface,
                child,
                popup,
                layout_changed,
                pointer,
                serial,
            ),
            final(self)@.wf(),
            final(self)@.windows.dom() == old(self)@.windows.dom(),
    {
        if let Some(p) = popup {
            if p.xdg && !p.initial_configure_sent {
                self.emit(Command::SendPopupConfigure { popup: surface });
            }
        }
        if !layer_shell::handle_commit(self, surface, layout_changed) {
            xdg_shell::lifecycle::handle_commit(self, surface, pointer, serial);
        }
        if let Some(w) = child {
            self.center_child_toplevel(w);
        }
    }
}

} // verus!
