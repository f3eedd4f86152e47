//! Where windows are placed.

use vstd::prelude::*;
use crate::geometry::{centered_loc, child_loc, fills_zone, Point, Rect, Size};
use crate::state::{State, StateView};
use crate::toplevel::PendingChange;

verus! {

broadcast use vstd::std_specs::hash::group_hash_axioms;

impl StateView {
    /// The place of the stacked window `w` on the plane.
    pub open spec fn element_geometry(self, w: u64) -> Rect {
        Rect {
            loc: crate::space::loc_of(self.elements, w),
            size: self.windows[w].geometry.size,
        }
    }

    /// Whether `w` is a dialog whose parent is stacked.
    pub open spec fn has_stacked_parent(self, w: u64) -> bool {
        self.windows[w].parent is Some && crate::space::stacked(
            self.elements,
            self.windows[w].parent->0,
        )
    }

    /// Whether placing the dialog `w` over its parent stays within the coordinate range.
    pub open spec fn child_fits(self, w: u64) -> bool {
        self.has_stacked_parent(w) ==> self.element_geometry(
            self.windows[w].parent->0,
        ).child_fits(self.windows[w].geometry.size)
    }

    /// The dialog `w` placed over the middle of its parent and stacked above it.
    pub open spec fn center_child(self, w: u64) -> StateView {
        if self.has_stacked_parent(w) {
            let parent = self.windows[w].parent->0;
            self.relocate_window(
                w,
                self.element_geometry(parent).child_spec(self.windows[w].geometry.size),
            ).raise_above(w, parent)
        } else {
            self
        }
    }

    /// Where the parentless window `w` goes in `zone`: at its corner when it can fill the zone,
    /// else in its middle.
    pub open spec fn zone_loc(self, w: u64, zone: Rect) -> Point {
        if self.windows[w].max_size.fills_spec(zone.size) {
            zone.loc
        } else {
            zone.centered_spec(self.windows[w].geometry)
        }
    }

    /// Whether placing the parentless window `w` in `zone` stays within the coordinate range.
    pub open spec fn zone_fits(self, w: u64, zone: Rect) -> bool {
        !self.windows[w].max_size.fills_spec(zone.size) ==> zone.centering_fits(
            self.windows[w].geometry,
        )
    }

    /// `w` placed anew in `zone`: a dialog over its parent, a window that can fill the zone
    /// resized to it, any other window centered and left at its size.
    pub open spec fn reflow_window(self, w: u64, zone: Rect) -> StateView {
        if self.windows[w].parent is Some {
            self.center_child(w)
        } else if self.windows[w].max_size.fills_spec(zone.size) {
            let s = self.set_pending(w, PendingChange::sized(zone.size));
            (if s.windows[w].initial_configure_sent {
                s.send_pending_configure(w)
            } else {
                s
            }).relocate_window(w, zone.loc)
        } else {
            self.relocate_window(w, zone.centered_spec(self.windows[w].geometry))
        }
    }

    /// Whether placing `w` anew in `zone` stays within the coordinate range.
    pub open spec fn reflow_window_fits(self, w: u64, zone: Rect) -> bool {
        if self.windows[w].parent is Some {
            self.child_fits(w)
        } else {
            self.zone_fits(w, zone)
        }
    }

    /// The windows `ws` placed anew in `zone`, one after the other.
    pub open spec fn reflow_windows(self, ws: Seq<u64>, zone: Rect) -> StateView
        decreases ws.len(),
    {
        if ws.len() == 0 {
            self
        } else {
            self.reflow_windows(ws.drop_last(), zone).reflow_window(ws.last(), zone)
        }
    }

    /// Whether placing the windows `ws` anew in `zone` stays within the coordinate range.
    pub open spec fn reflow_windows_fit(self, ws: Seq<u64>, zone: Rect) -> bool
        decreases ws.len(),
    {
        ws.len() > 0 ==> {
            &&& self.reflow_windows_fit(ws.drop_last(), zone)
            &&& self.reflow_windows(ws.drop_last(), zone).reflow_window_fits(ws.last(), zone)
        }
    }

    /// Every stacked window placed anew in the zone, bottom first.
    pub open spec fn reflow_toplevels(self) -> StateView {
        match self.zone() {
            Some(zone) => self.reflow_windows(crate::space::windows_of(self.elements), zone),
            None => self,
        }
    }

    /// Whether placing every stacked window anew stays within the coordinate range.
    pub open spec fn reflow_fits(self) -> bool {
        self.zone() matches Some(zone) ==> self.reflow_windows_fit(
            crate::space::windows_of(self.elements),
            zone,
        )
    }
}

impl State {
    /// Keeps the dialog `w` centered over its parent and stacked above it. Does nothing for a
    /// window without a parent, or whose parent is not stacked.
    pub fn center_child_toplevel(&mut self, w: u64)
        requires
            old(self)@.wf(),
            old(self)@.windows.contains_key(w),
            old(self)@.child_fits(w),
        ensures
            final(self)@ == old(self)@.center_child(w),
            final(self)@.wf(),
            final(self)@.windows == old(self)@.windows,
    {
        let (parent, child_size): (u64, Size) = match self.windows.get(&w) {
            Some(win) => match win.parent {
                Some(parent) => (parent, win.geometry.size),
                None => {
                    return;
                },
            },
            None => {
                return;
            },
        };
        let parent_loc: Point = match self.space.position(parent) {
            Some(i) => self.space.elements[i].loc,
            None => {
                return;
            },
        };
        assert(crate::space::stacked(self@.elements, parent));
        let parent_size: Size = match self.windows.get(&parent) {
            Some(win) => win.geometry.size,
            None => {
                return;
            },
        };
        let loc = child_loc(Rect { loc: parent_loc, size: parent_size }, child_size);
        self.relocate_window(w, loc);
        self.raise_above(w, parent);
    }

    /// Places `w` anew in `zone`.
    fn reflow_window(&mut self, w: u64, zone: Rect)
        requires
            old(self)@.wf(),
            old(self)@.windows.contains_key(w),
            old(self)@.reflow_window_fits(w, zone),
        ensures
            final(self)@ == old(self)@.reflow_window(w, zone),
            final(self)@.wf(),
            final(self)@.windows.dom() == old(self)@.windows.dom(),
    {
        let (parent, max_size, geometry, sent): (Option<u64>, Size, Rect, bool) =
            match self.windows.get(&w) {
            Some(win) => (win.parent, win.max_size, win.geometry, win.initial_configure_sent),
            None => {
                return;
            },
        };
        if parent.is_some() {
            self.center_child_toplevel(w);
        } else if fills_zone(max_size, zone.size) {
            self.set_pending(w, PendingChange::sized(zone.size));
            if sent {
                self.send_pending_configure(w);
            }
            self.relocate_window(w, zone.loc);
        } else {
            self.relocate_window(w, centered_loc(zone, geometry));
        }
    }

    /// Resizes and repositions every stacked window for the current zone, the area left over once
    /// panels have claimed their exclusive strips. Dialogs stay centered over their parents;
    /// windows that cannot fill the zone are centered and keep their size.
    pub fn reflow_toplevels(&mut self)
        requires
            old(self)@.wf(),
            old(self)@.reflow_fits(),
        ensures
            final(self)@ == old(self)@.reflow_toplevels(),
            final(self)@.wf(),
            final(self)@.windows.dom() == old(self)@.windows.dom(),
    {
        let zone: Rect = match self.zone() {
            Some(zone) => zone,
            None => {
                return;
            },
        };
        let ghost before = self@;
        let ghost ws = crate::space::windows_of(before.elements);
        let windows = self.stacked_windows();
        let n: usize = windows.len();
        let mut i: usize = 0;
        proof {
            assert(ws.take(0) =~= Seq::empty());
            assert(ws.take(n as int) =~= ws);
        }
        while i < n
            invariant
                before.wf(),
                ws == crate::space::windows_of(before.elements),
                windows@ == ws,
                n == ws.len(),
                i <= n,
                before.reflow_windows_fit(ws, zone),
                self@ == before.reflow_windows(ws.take(i as int), zone),
                self@.wf(),
                self@.windows.dom() == before.windows.dom(),
            decreases n - i,
        {
            let w: u64 = windows[i];
            proof {
                assert(before.elements[i as int].window == w);
                assert(crate::space::stacked(before.elements, w));
                assert(before.windows.dom().contains(w));
                lemma_fit_prefix(before, ws, zone, i + 1);
                assert(ws.take(i + 1).drop_last() =~= ws.take(i as int));
                assert(ws.take(i + 1).last() == w);
            }
            self.reflow_window(w, zone);
            i = i + 1;
        }
        assert(ws.take(n as int) =~= ws);
    }

    /// The stacked windows, bottom first.
    pub(crate) fn stacked_windows(&self) -> (r: Vec<u64>)
        ensures
            r@ == crate::space::windows_of(self@.elements),
    {
        let mut r: Vec<u64> = Vec::new();
        let n: usize = self.space.elements.len();
        let mut i: usize = 0;
        while i < n
            invariant
                n == self@.elements.len(),
                i <= n,
                r@.len() == i,
                forall|j: int| 0 <= j < i ==> #[trigger] r@[j] == self@.elements[j].window,
            decreases n - i,
        {
            r.push(self.space.elements[i].window);
            i = i + 1;
        }
        assert(r@ =~= crate::space::windows_of(self@.elements));
        r
    }
}

/// What fits for all of `ws` fits for every beginning of it.
pub(crate) proof fn lemma_fit_prefix(s: StateView, ws: Seq<u64>, zone: Rect, k: int)
    requires
        s.reflow_windows_fit(ws, zone),
        0 <= k <= ws.len(),
    ensures
        s.reflow_windows_fit(ws.take(k), zone),
    decreases ws.len(),
{
    if k == ws.len() {
        assert(ws.take(k) =~= ws);
    } else {
        lemma_fit_prefix(s, ws.drop_last(), zone, k);
        assert(ws.drop_last().take(k) =~= ws.take(k));
    }
}

} // verus!
