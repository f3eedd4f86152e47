//! From the creation of a toplevel over its commits to its end.

use vstd::prelude::*;
use crate::geometry::{centered_loc, fills_zone, Point, Rect, Size};
use crate::state::{State, StateView};
use crate::toplevel::{PendingChange, WindowKind, WindowMode, WindowState};

verus! {

broadcast use vstd::std_specs::hash::group_hash_axioms;

/// Where a transient appears relative to the pointer.
#[verifier::allow_in_spec]
pub fn pointer_offset() -> Point
    returns
        (Point { x: 12, y: 24 }),
{
    Point { x: 12, y: 24 }
}

/// The corner of the plane.
#[verifier::allow_in_spec]
pub fn origin() -> Point
    returns
        (Point { x: 0, y: 0 }),
{
    Point { x: 0, y: 0 }
}

impl WindowKind {
    /// Whether this is a transient.
    pub fn is_transient(&self) -> (r: bool)
        ensures
            r == (*self is Transient),
    {
        match self {
            WindowKind::Transient(_) => true,
            _ => false,
        }
    }
}

impl StateView {
    /// The toplevel `w` treated as `ws`.
    pub open spec fn set_window_state(self, w: u64, ws: WindowState) -> StateView {
        StateView { toplevels: self.toplevels.insert(w, ws), ..self }
    }

    /// `w` registered; its first commit decides the rest.
    pub open spec fn new_toplevel(self, w: u64) -> StateView {
        (match self.zone() {
            Some(zone) => self.set_pending(w, PendingChange::bounded(zone.size)),
            None => self,
        }).set_window_state(
            w,
            WindowState {
                kind: WindowKind::Normal,
                mode: WindowMode::Floating,
                mapped: false,
                modal: false,
            },
        )
    }

    /// `w` forgotten; if it was stacked, it leaves the stack and the topmost window is focused.
    pub open spec fn toplevel_destroyed(self, w: u64, serial: u32) -> StateView {
        let s = StateView { toplevels: self.toplevels.remove(w), ..self };
        if self.is_transient(w) {
            s
        } else if crate::space::stacked(self.elements, w) {
            s.unmap_window(w).focus_topmost(serial)
        } else {
            s
        }
    }

    /// Whether `w` is treated as a transient.
    pub open spec fn is_transient(self, w: u64) -> bool {
        self.toplevels.contains_key(w) && self.toplevels[w].kind is Transient
    }

    /// Whether the client of `w` gave it neither a parent nor a title nor an application id.
    pub open spec fn is_anonymous(self, w: u64) -> bool {
        &&& self.windows[w].parent is None
        &&& self.windows[w].title@.len() == 0
        &&& self.windows[w].app_id@.len() == 0
    }

    /// `w` kept as a transient near the pointer: configured at a size of its choice, neither
    /// stacked nor focused nor maximized.
    pub open spec fn map_transient(self, w: u64, pointer: Option<Point>) -> StateView {
        let s = self.set_pending(w, PendingChange::float()).send_configure(w);
        let loc = match pointer {
            Some(p) => p.plus_spec(pointer_offset()),
            None => origin(),
        };
        s.set_window_state(
            w,
            WindowState {
                kind: WindowKind::Transient(loc),
                mode: WindowMode::Floating,
                mapped: true,
                ..s.toplevels[w]
            },
        )
    }

    /// Whether `w` starts out filling the zone: it is no dialog, and its maximum size allows it.
    pub open spec fn starts_maximized(self, w: u64) -> bool {
        &&& self.windows[w].parent is None
        &&& self.zone() matches Some(zone) ==> self.windows[w].max_size.fills_spec(zone.size)
    }

    /// How `w` is treated once it is mapped.
    pub open spec fn mapped_state(self, w: u64) -> WindowState {
        WindowState {
            kind: if self.windows[w].parent is Some {
                WindowKind::Dialog
            } else {
                WindowKind::Normal
            },
            mode: if self.starts_maximized(w) {
                WindowMode::Maximized
            } else {
                WindowMode::Floating
            },
            ..self.toplevels[w]
        }
    }

    /// Where `w` is mapped.
    pub open spec fn mapped_loc(self, w: u64) -> Point {
        match (self.windows[w].parent, self.zone()) {
            (None, Some(zone)) => self.zone_loc(w, zone),
            _ => origin(),
        }
    }

    /// `w` treated as a window, or as a dialog, and a window proposed its size.
    pub open spec fn propose_mapping(self, w: u64) -> StateView {
        let s = self.set_window_state(w, self.mapped_state(w));
        match (self.windows[w].parent, self.zone()) {
            (None, Some(zone)) => s.set_pending(
                w,
                PendingChange::for_zone(self.starts_maximized(w), zone.size),
            ),
            _ => s,
        }
    }

    /// `w` stacked on top, or directly below the active fullscreen window if there is one.
    pub open spec fn map_below_fullscreen(self, w: u64, loc: Point) -> StateView {
        match self.active_fullscreen_window() {
            Some(front) => self.map_below(w, loc, front),
            None => self.map_window(w, loc, true),
        }
    }

    /// `w` stacked, proposed its size, and focused unless a fullscreen window is in front; then
    /// configured.
    pub open spec fn stack_toplevel(self, w: u64, serial: u32) -> StateView {
        let s = self.propose_mapping(w).map_below_fullscreen(w, self.mapped_loc(w)).focus_window(
            w,
            serial,
        );
        s.set_window_state(w, WindowState { mapped: true, ..s.toplevels[w] }).send_configure(w)
    }

    /// `w` stacked and configured; a dialog also goes over its parent.
    pub open spec fn map_toplevel(self, w: u64, serial: u32) -> StateView {
        self.stack_toplevel(w, serial).center_child(w)
    }

    /// Whether mapping `w` stays within the coordinate range.
    pub open spec fn map_fits(self, w: u64, serial: u32) -> bool {
        match self.windows[w].parent {
            Some(_) => self.stack_toplevel(w, serial).child_fits(w),
            None => self.zone() matches Some(zone) ==> self.zone_fits(w, zone),
        }
    }

    /// The first commit of `w`.
    pub open spec fn first_commit(self, w: u64, pointer: Option<Point>, serial: u32) -> StateView {
        if self.is_anonymous(w) {
            self.map_transient(w, pointer)
        } else {
            self.map_toplevel(w, serial)
        }
    }

    /// Whether the first commit of `w` stays within the coordinate range.
    pub open spec fn first_commit_fits(self, w: u64, serial: u32) -> bool {
        !self.is_anonymous(w) ==> self.map_fits(w, serial)
    }

    /// A transient looked at again.
    pub open spec fn promote_transient(
        self,
        w: u64,
        pointer: Option<Point>,
        serial: u32,
    ) -> StateView {
        if self.is_transient(w) {
            self.first_commit(w, pointer, serial)
        } else {
            self
        }
    }

    /// The area that holds the transient `w`, if `w` is one and has room in it.
    pub open spec fn transient_area(self, w: u64) -> Option<Rect> {
        match self.output_geometry() {
            Some(geo) => if self.toplevels[w].kind is Transient && geo.has_room_for(
                self.windows[w].geometry.size,
            ) {
                Some(geo)
            } else {
                None
            },
            None => None,
        }
    }

    /// The transient `w` moved as little as needed to lie on the output.
    pub open spec fn keep_transient_inside(self, w: u64) -> StateView {
        match self.transient_area(w) {
            Some(geo) => self.set_window_state(
                w,
                WindowState {
                    kind: WindowKind::Transient(
                        geo.kept_inside_spec(
                            self.toplevels[w].kind->Transient_0,
                            self.windows[w].geometry.size,
                        ),
                    ),
                    ..self.toplevels[w]
                },
            ),
            None => self,
        }
    }

    /// Whether moving the transient `w` onto the output stays within the coordinate range.
    pub open spec fn transient_fits(self, w: u64) -> bool {
        self.transient_area(w) matches Some(geo) ==> {
            &&& geo.far_corner_fits()
            &&& crate::geometry::in_i32(
                geo.loc.x + geo.size.w - self.windows[w].geometry.size.w,
            )
            &&& crate::geometry::in_i32(
                geo.loc.y + geo.size.h - self.windows[w].geometry.size.h,
            )
        }
    }

    /// Whether what the client of `w` committed disagrees with whether `w` fills the zone. Dialogs
    /// and transients are never maximized, and a fullscreen window keeps its mode.
    pub open spec fn maximize_outdated(self, w: u64) -> bool {
        &&& self.windows[w].parent is None
        &&& !self.is_transient(w)
        &&& self.windows[w].initial_configure_sent
        &&& !self.in_mode(w, WindowMode::Fullscreen)
        &&& self.zone() is Some
        &&& self.windows[w].max_size.fills_spec(self.zone()->0.size)
            != self.windows[w].committed_maximized
    }

    /// `w` maximized or released once its size hints say so; a window released is centered.
    pub open spec fn recheck_maximize(self, w: u64) -> StateView {
        if self.maximize_outdated(w) {
            let zone = self.zone()->0;
            let fills = self.windows[w].max_size.fills_spec(zone.size);
            let s = self.set_mode(
                w,
                if fills {
                    WindowMode::Maximized
                } else {
                    WindowMode::Floating
                },
            ).set_pending(w, PendingChange::for_zone(fills, zone.size)).send_pending_configure(w);
            if fills {
                s
            } else {
                s.relocate_window(w, zone.centered_spec(self.windows[w].geometry))
            }
        } else {
            self
        }
    }

    /// Whether the maximize decision of `w` looked at again stays within the coordinate range.
    pub open spec fn recheck_fits(self, w: u64) -> bool {
        self.maximize_outdated(w) ==> self.zone_fits(w, self.zone()->0)
    }

    /// Whether a commit of `w` ends with its first commit: it is kept as a transient.
    pub open spec fn commit_keeps_transient(self, w: u64) -> bool {
        !self.toplevels[w].mapped && self.is_anonymous(w)
    }

    /// The first commit of `w`, or the place of a transient mended.
    pub open spec fn commit_mapping(self, w: u64, pointer: Option<Point>, serial: u32) -> StateView {
        if !self.toplevels[w].mapped {
            self.first_commit(w, pointer, serial)
        } else {
            self.keep_transient_inside(w)
        }
    }

    /// A commit of `surface`.
    #[verifier::opaque]
    pub open spec fn toplevel_commit(
        self,
        surface: u64,
        pointer: Option<Point>,
        serial: u32,
    ) -> StateView {
        if !self.toplevels.contains_key(surface) {
            self
        } else if self.commit_keeps_transient(surface) {
            self.commit_mapping(surface, pointer, serial)
        } else {
            self.commit_mapping(surface, pointer, serial).recheck_maximize(surface).center_child(
                surface,
            )
        }
    }

    /// Whether a commit of `surface` stays within the coordinate range.
    #[verifier::opaque]
    pub open spec fn toplevel_commit_fits(
        self,
        surface: u64,
        pointer: Option<Point>,
        serial: u32,
    ) -> bool {
        self.toplevels.contains_key(surface) ==> {
            let s = self.commit_mapping(surface, pointer, serial);
            &&& if self.toplevels[surface].mapped {
                self.transient_fits(surface)
            } else {
                self.first_commit_fits(surface, serial)
            }
            &&& !self.commit_keeps_transient(surface) ==> s.recheck_fits(surface)
                && s.recheck_maximize(surface).child_fits(surface)
        }
    }
}

impl State {
    /// A client created the toplevel `w`. Its parent is not known yet, so it only gets bounds; the
    /// first commit decides about size and place.
    pub fn new_toplevel(&mut self, w: u64)
        requires
            old(self)@.wf(),
            old(self)@.windows.contains_key(w),
        ensures
            final(self)@ == old(self)@.new_toplevel(w),
            final(self)@.wf(),
    {
        if let Some(zone) = self.zone() {
            self.set_pending(w, PendingChange::bounded(zone.size));
        }
        self.toplevels.insert(
            w,
            WindowState {
                kind: WindowKind::Normal,
                mode: WindowMode::Floating,
                mapped: false,
                modal: false,
            },
        );
    }

    /// The toplevel `w` is gone. If it was stacked, the topmost window left is focused; transients
    /// never joined the stack, so there is nothing to restore.
    pub fn toplevel_destroyed(&mut self, w: u64, serial: u32)
        requires
            old(self)@.wf(),
        ensures
            final(self)@ == old(self)@.toplevel_destroyed(w, serial),
            final(self)@.wf(),
    {
        let was_transient: bool = self.is_transient(w);
        self.toplevels.remove(&w);
        if was_transient {
            return;
        }
        if self.space.contains(w) {
            self.unmap_window(w);
            self.focus_topmost(serial);
        }
    }

    /// Whether `w` is treated as a transient.
    pub(crate) fn is_transient(&self, w: u64) -> (r: bool)
        ensures
            r == self@.is_transient(w),
    {
        match self.toplevels.get(&w) {
            Some(ws) => ws.kind.is_transient(),
            None => false,
        }
    }

    /// Whether the client of `w` gave it neither a parent nor a title nor an application id.
    pub(crate) fn is_anonymous(&self, w: u64) -> (r: bool)
        requires
            self@.windows.contains_key(w),
        ensures
            r == self@.is_anonymous(w),
    {
        match self.windows.get(&w) {
            Some(win) => win.parent.is_none() && win.title.as_str().is_empty()
                && win.app_id.as_str().is_empty(),
            None => false,
        }
    }

    fn map_transient(&mut self, w: u64, pointer: Option<Point>)
        requires
            old(self)@.wf(),
            old(self)@.toplevels.contains_key(w),
        ensures
            final(self)@ == old(self)@.map_transient(w, pointer),
            final(self)@.wf(),
            final(self)@.windows.dom() == old(self)@.windows.dom(),
    {
        self.set_pending(w, PendingChange::float());
        self.send_configure(w);
        let loc: Point = match pointer {
            Some(p) => p.plus(pointer_offset()),
            None => origin(),
        };
        if let Some(ws) = self.toplevels.get(&w) {
            let ws: WindowState = *ws;
            self.toplevels.insert(
                w,
                WindowState {
                    kind: WindowKind::Transient(loc),
                    mode: WindowMode::Floating,
                    mapped: true,
                    ..ws
                },
            );
        }
    }

    /// Stacks `w` on top, or directly below the active fullscreen window if there is one.
    fn map_below_fullscreen(&mut self, w: u64, loc: Point)
        requires
            old(self)@.wf(),
            old(self)@.windows.contains_key(w),
        ensures
            final(self)@ == old(self)@.map_below_fullscreen(w, loc),
            final(self)@.wf(),
            final(self)@.windows == old(self)@.windows,
            final(self)@.toplevels == old(self)@.toplevels,
    {
        match self.active_fullscreen_window() {
            Some(front) => {
                self.map_below(w, loc, front);
            },
            None => {
                self.map_window(w, loc, true);
            },
        }
    }

    fn map_toplevel(&mut self, w: u64, serial: u32)
        requires
            old(self)@.wf(),
            old(self)@.toplevels.contains_key(w),
            old(self)@.map_fits(w, serial),
        ensures
            final(self)@ == old(self)@.map_toplevel(w, serial),
            final(self)@.wf(),
            final(self)@.toplevels.contains_key(w),
            final(self)@.windows.dom() == old(self)@.windows.dom(),
    {
        let (is_dialog, max_size, geometry): (bool, Size, Rect) = match self.windows.get(&w) {
            Some(win) => (win.parent.is_some(), win.max_size, win.geometry),
            None => {
                return;
            },
        };
        let zone: Option<Rect> = self.zone();
        let fills: bool = !is_dialog && match zone {
            Some(z) => fills_zone(max_size, z.size),
            None => true,
        };
        if let Some(ws) = self.toplevels.get(&w) {
            let ws: WindowState = *ws;
            self.toplevels.insert(
                w,
                WindowState {
                    kind: if is_dialog {
                        WindowKind::Dialog
                    } else {
                        WindowKind::Normal
                    },
                    mode: if fills {
                        WindowMode::Maximized
                    } else {
                        WindowMode::Floating
                    },
                    ..ws
                },
            );
        }
        let mut loc: Point = origin();
        if !is_dialog {
            if let Some(z) = zone {
                self.set_pending(w, PendingChange::for_zone(fills, z.size));
                loc = if fills {
                    z.loc
                } else {
                    centered_loc(z, geometry)
                };
            }
        }
        self.map_below_fullscreen(w, loc);
        self.focus_window(w, serial);
        if let Some(ws) = self.toplevels.get(&w) {
            let ws: WindowState = *ws;
            self.toplevels.insert(w, WindowState { mapped: true, ..ws });
        }
        self.send_configure(w);
        assert(self@ == old(self)@.stack_toplevel(w, serial));
        if is_dialog {
            self.center_child_toplevel(w);
        }
    }

    /// Maps a toplevel on its first commit, or a transient that has gained a title, an application
    /// id or a parent. Returns whether it is kept as a transient.
    pub fn handle_toplevel_first_commit(
        &mut self,
        w: u64,
        pointer: Option<Point>,
        serial: u32,
    ) -> (kept: bool)
        requires
            old(self)@.wf(),
            old(self)@.toplevels.contains_key(w),
            old(self)@.first_commit_fits(w, serial),
        ensures
            final(self)@ == old(self)@.first_commit(w, pointer, serial),
            kept == old(self)@.is_anonymous(w),
            final(self)@.wf(),
            final(self)@.toplevels.contains_key(w),
            final(self)@.windows.dom() == old(self)@.windows.dom(),
    {
        if self.is_anonymous(w) {
            self.map_transient(w, pointer);
            return true;
        }
        self.map_toplevel(w, serial);
        false
    }

    /// Looks at a transient again, after its title, application id or parent changed.
    pub fn promote_transient(&mut self, w: u64, pointer: Option<Point>, serial: u32)
        requires
            old(self)@.wf(),
            old(self)@.is_transient(w) ==> old(self)@.first_commit_fits(w, serial),
        ensures
            final(self)@ == old(self)@.promote_transient(w, pointer, serial),
            final(self)@.wf(),
            final(self)@.windows.dom() == old(self)@.windows.dom(),
    {
        if self.is_transient(w) {
            self.handle_toplevel_first_commit(w, pointer, serial);
        }
    }

    fn keep_transient_inside(&mut self, w: u64)
        requires
            old(self)@.wf(),
            old(self)@.toplevels.contains_key(w),
            old(self)@.transient_fits(w),
        ensures
            final(self)@ == old(self)@.keep_transient_inside(w),
            final(self)@.wf(),
            final(self)@.toplevels.contains_key(w),
    {
        let ws: WindowState = match self.toplevels.get(&w) {
            Some(ws) => *ws,
            None => {
                return;
            },
        };
        let loc: Point = match ws.kind {
            WindowKind::Transient(loc) => loc,
            _ => {
                return;
            },
        };
        let geo: Rect = match self.output_geometry() {
            Some(geo) => geo,
            None => {
                return;
            },
        };
        let size: Size = match self.windows.get(&w) {
            Some(win) => win.geometry.size,
            None => {
                return;
            },
        };
        if size.w <= geo.size.w && size.h <= geo.size.h {
            let kept: Point = geo.kept_inside(loc, size);
            self.toplevels.insert(w, WindowState { kind: WindowKind::Transient(kept), ..ws });
        }
    }

    fn recheck_maximize(&mut self, w: u64)
        requires
            old(self)@.wf(),
            old(self)@.toplevels.contains_key(w),
            old(self)@.recheck_fits(w),
        ensures
            final(self)@ == old(self)@.recheck_maximize(w),
            final(self)@.wf(),
            final(self)@.windows.dom() == old(self)@.windows.dom(),
    {
        let zone: Rect = match self.zone() {
            Some(zone) => zone,
            None => {
                return;
            },
        };
        if self.is_transient(w) || self.in_mode(w, WindowMode::Fullscreen) {
            return;
        }
        let (fills, geometry): (bool, Rect) = match self.windows.get(&w) {
            Some(win) => {
                let fills: bool = fills_zone(win.max_size, zone.size);
                if win.parent.is_some() || !win.initial_configure_sent || fills
                    == win.committed_maximized {
                    return;
                }
                (fills, win.geometry)
            },
            None => {
                return;
            },
        };
        self.set_mode(
            w,
            if fills {
                WindowMode::Maximized
            } else {
                WindowMode::Floating
            },
        );
        self.set_pending(w, PendingChange::for_zone(fills, zone.size));
        self.send_pending_configure(w);
        if !fills {
            self.relocate_window(w, centered_loc(zone, geometry));
        }
    }
}

/// Handles a commit of `surface`: maps a toplevel on its first commit, keeps transients on the
/// output and dialogs over their parents, and looks at the maximize decision again, since size
/// hints may arrive after the initial configure. Returns whether `surface` is a toplevel.
pub fn handle_commit(
    state: &mut State,
    surface: u64,
    pointer: Option<Point>,
    serial: u32,
) -> (known: bool)
    requires
        old(state)@.wf(),
        old(state)@.toplevel_commit_fits(surface, pointer, serial),
    ensures
        final(state)@ == old(state)@.toplevel_commit(surface, pointer, serial),
        known == old(state)@.toplevels.contains_key(surface),
        final(state)@.wf(),
        final(state)@.windows.dom() == old(state)@.windows.dom(),
{
    reveal(StateView::toplevel_commit);
    reveal(StateView::toplevel_commit_fits);
    let mapped: bool = match state.toplevels.get(&surface) {
        Some(ws) => ws.mapped,
        None => {
            return false;
        },
    };
    if !mapped {
        if state.handle_toplevel_first_commit(surface, pointer, serial) {
            return true;
        }
    } else {
        state.keep_transient_inside(surface);
    }
    state.recheck_maximize(surface);
    state.center_child_toplevel(surface);
    true
}

} // verus!
