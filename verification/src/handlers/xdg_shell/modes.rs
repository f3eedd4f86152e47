//! Maximize and fullscreen requests.

use vstd::prelude::*;
use crate::geometry::{fills_zone, Rect};
use crate::state::{State, StateView};
use crate::toplevel::{PendingChange, WindowMode};

verus! {

broadcast use vstd::std_specs::hash::group_hash_axioms;

impl StateView {
    /// Whether the maximum size of `w` keeps it from filling `area`.
    pub open spec fn too_small_for(self, w: u64, area: Option<Rect>) -> bool {
        area matches Some(area) && !self.windows[w].max_size.fills_spec(area.size)
    }

    /// Whether a maximize request of `w` is ignored: dialogs and transients are never maximized, a
    /// fullscreen window keeps its mode, and fixed-size windows cannot fill the zone.
    pub open spec fn maximize_ignored(self, w: u64) -> bool {
        ||| self.windows[w].parent is Some
        ||| self.is_transient(w)
        ||| self.in_mode(w, WindowMode::Fullscreen)
        ||| self.too_small_for(w, self.zone())
    }

    pub open spec fn maximize_request(self, w: u64) -> StateView {
        if self.maximize_ignored(w) {
            self
        } else {
            (match self.zone() {
                Some(zone) => self.set_pending(w, PendingChange::maximize(zone.size)).set_mode(
                    w,
                    WindowMode::Maximized,
                ),
                None => self,
            }).send_configure(w)
        }
    }

    /// Whether an unmaximize request of `w` is ignored: there is nothing to restore unless `w` is
    /// a maximized window that fills the zone.
    pub open spec fn unmaximize_ignored(self, w: u64) -> bool {
        ||| self.windows[w].parent is Some
        ||| self.is_transient(w)
        ||| !self.in_mode(w, WindowMode::Maximized)
        ||| self.too_small_for(w, self.zone())
    }

    /// Windows cannot leave the maximized mode at their own request: it is confirmed again.
    pub open spec fn unmaximize_request(self, w: u64) -> StateView {
        if self.unmaximize_ignored(w) {
            self
        } else {
            (match self.zone() {
                Some(zone) => self.set_pending(w, PendingChange::maximize(zone.size)),
                None => self,
            }).send_configure(w)
        }
    }

    /// Whether a fullscreen request of `w` is ignored: dialogs and transients are never fullscreen,
    /// a fullscreen window already is, and fixed-size windows cannot fill the output.
    pub open spec fn fullscreen_ignored(self, w: u64) -> bool {
        ||| self.windows[w].parent is Some
        ||| self.is_transient(w)
        ||| self.in_mode(w, WindowMode::Fullscreen)
        ||| self.too_small_for(w, self.output_geometry())
    }

    /// `w` made fullscreen, put above every other window and focused.
    pub open spec fn fullscreen_request(self, w: u64, serial: u32) -> StateView {
        if self.fullscreen_ignored(w) {
            self
        } else {
            let s = (match self.output_geometry() {
                Some(geo) => self.set_pending(w, PendingChange::fullscreen(geo.size)).set_mode(
                    w,
                    WindowMode::Fullscreen,
                ),
                None => self,
            }).send_configure(w);
            if s.toplevels.contains_key(w) {
                s.raise_window(w, false).focus_window(w, serial)
            } else {
                s
            }
        }
    }

    /// Whether `w` may be maximized in `zone`: it is no dialog, no transient and no fixed-size
    /// window.
    pub open spec fn may_fill(self, w: u64, zone: Rect) -> bool {
        &&& self.windows[w].parent is None
        &&& !self.is_transient(w)
        &&& self.windows[w].max_size.fills_spec(zone.size)
    }

    /// A fullscreen window returned to the maximized mode, or to floating if it may not be
    /// maximized.
    pub open spec fn unfullscreen_request(self, w: u64) -> StateView {
        if !self.in_mode(w, WindowMode::Fullscreen) {
            self
        } else {
            (match self.zone() {
                Some(zone) => if self.may_fill(w, zone) {
                    self.set_pending(w, PendingChange::restore_maximized(zone.size)).set_mode(
                        w,
                        WindowMode::Maximized,
                    )
                } else {
                    self.set_pending(w, PendingChange::float_within(zone.size)).set_mode(
                        w,
                        WindowMode::Floating,
                    )
                },
                None => self,
            }).send_configure(w)
        }
    }
}

impl State {
    /// Whether `w` has a parent.
    fn has_parent(&self, w: u64) -> (r: bool)
        requires
            self@.windows.contains_key(w),
        ensures
            r == (self@.windows[w].parent is Some),
    {
        match self.windows.get(&w) {
            Some(win) => win.parent.is_some(),
            None => false,
        }
    }

    /// Whether the maximum size of `w` keeps it from filling `area`.
    fn too_small_for(&self, w: u64, area: Option<Rect>) -> (r: bool)
        requires
            self@.windows.contains_key(w),
        ensures
            r == self@.too_small_for(w, area),
    {
        match (self.windows.get(&w), area) {
            (Some(win), Some(area)) => !fills_zone(win.max_size, area.size),
            _ => false,
        }
    }

    /// The client of `w` asks to be maximized. A request that would change the mode of a surface
    /// that is no known toplevel is not allowed.
    pub fn maximize_request(&mut self, w: u64)
        requires
            old(self)@.wf(),
            old(self)@.windows.contains_key(w),
            old(self)@.toplevels.contains_key(w) || old(self)@.maximize_ignored(w)
                || old(self)@.zone() is None,
        ensures
            final(self)@ == old(self)@.maximize_request(w),
            final(self)@.wf(),
    {
        let zone: Option<Rect> = self.zone();
        if self.has_parent(w) || self.is_transient(w) || self.in_mode(w, WindowMode::Fullscreen)
            || self.too_small_for(w, zone) {
            return;
        }
        if let Some(zone) = zone {
            self.set_pending(w, PendingChange::maximize(zone.size));
            self.set_mode(w, WindowMode::Maximized);
        }
        self.send_configure(w);
    }

    /// The client of `w` asks to leave the maximized mode.
    pub fn unmaximize_request(&mut self, w: u64)
        requires
            old(self)@.wf(),
            old(self)@.windows.contains_key(w),
        ensures
            final(self)@ == old(self)@.unmaximize_request(w),
            final(self)@.wf(),
    {
        let zone: Option<Rect> = self.zone();
        if self.has_parent(w) || self.is_transient(w) || !self.in_mode(w, WindowMode::Maximized)
            || self.too_small_for(w, zone) {
            return;
        }
        if let Some(zone) = zone {
            self.set_pending(w, PendingChange::maximize(zone.size));
        }
        self.send_configure(w);
    }

    /// The client of `w` asks to be fullscreen. A request that would change the mode of a surface
    /// that is no known toplevel is not allowed.
    pub fn fullscreen_request(&mut self, w: u64, serial: u32)
        requires
            old(self)@.wf(),
            old(self)@.windows.contains_key(w),
            old(self)@.toplevels.contains_key(w) || old(self)@.fullscreen_ignored(w)
                || old(self)@.output_geometry() is None,
        ensures
            final(self)@ == old(self)@.fullscreen_request(w, serial),
            final(self)@.wf(),
    {
        let output_geo: Option<Rect> = self.output_geometry();
        if self.has_parent(w) || self.is_transient(w) || self.in_mode(w, WindowMode::Fullscreen)
            || self.too_small_for(w, output_geo) {
            return;
        }
        if let Some(geo) = output_geo {
            self.set_pending(w, PendingChange::fullscreen(geo.size));
            self.set_mode(w, WindowMode::Fullscreen);
        }
        self.send_configure(w);
        if self.toplevels.contains_key(&w) {
            self.raise_window(w, false);
            self.focus_window(w, serial);
        }
    }

    /// The client of `w` asks to leave fullscreen. It is maximized then; a window that is never
    /// maximized floats.
    pub fn unfullscreen_request(&mut self, w: u64)
        requires
            old(self)@.wf(),
        ensures
            final(self)@ == old(self)@.unfullscreen_request(w),
            final(self)@.wf(),
    {
        if !self.in_mode(w, WindowMode::Fullscreen) {
            return;
        }
        if let Some(zone) = self.zone() {
            if self.has_parent(w) || self.is_transient(w) || self.too_small_for(w, Some(zone)) {
                self.set_pending(w, PendingChange::float_within(zone.size));
                self.set_mode(w, WindowMode::Floating);
            } else {
                self.set_pending(w, PendingChange::restore_maximized(zone.size));
                self.set_mode(w, WindowMode::Maximized);
            }
        }
        self.send_configure(w);
    }
}

} // verus!
