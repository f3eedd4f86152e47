//! Tests of whether a reaction stays within the coordinate range. Each plays the reaction through on
//! a copy of the stack, and holds just when the reaction may be asked for.

use vstd::prelude::*;
use crate::command::Command;
use crate::geometry::{centered_loc, child_loc, fills_zone, Point, Rect, Size};
use crate::handlers::compositor::PopupCommit;
use crate::handlers::xdg_shell::layout::lemma_fit_prefix;
use crate::handlers::xdg_shell::lifecycle::origin;
use crate::space;
use crate::space::{Element, Space};
use crate::state;
use crate::state::{State, StateView};
use crate::toplevel::{Window, WindowMode};

verus! {

broadcast use vstd::std_specs::hash::group_hash_axioms;

impl StateView {
    /// The same desktop with another stack.
    pub open spec fn with_stack(self, es: Seq<Element>) -> StateView {
        StateView { elements: es, ..self }
    }

    /// Whether the parentless window `w` fills the zone just if it was not committed as maximized.
    pub open spec fn size_outdated(self, w: u64) -> bool {
        &&& self.windows[w].parent is None
        &&& self.zone() is Some
        &&& self.windows[w].max_size.fills_spec(self.zone()->0.size)
            != self.windows[w].committed_maximized
    }

    /// Whether the windows are stacked and shaped as in `other`.
    pub open spec fn shaped_like(self, other: StateView) -> bool {
        &&& self.elements == other.elements
        &&& forall|v: u64|
            #![trigger self.windows[v]]
            #![trigger other.windows[v]]
            {
                &&& self.windows[v].parent == other.windows[v].parent
                &&& self.windows[v].geometry == other.windows[v].geometry
                &&& self.windows[v].max_size == other.windows[v].max_size
            }
    }
}

/// A copy of a stack.
fn copy_stack(es: &Vec<Element>) -> (r: Space)
    ensures
        r.elements@ == es@,
{
    let mut r = Space::new();
    let n: usize = es.len();
    let mut i: usize = 0;
    while i < n
        invariant
            n == es@.len(),
            i <= n,
            r.elements@ == es@.take(i as int),
        decreases n - i,
    {
        r.elements.push(es[i]);
        i = i + 1;
        assert(r.elements@ =~= es@.take(i as int));
    }
    assert(r.elements@ =~= es@);
    r
}

impl State {
    /// The place of the parent of `w` in `stack`, and the parent, if it is stacked there.
    fn parent_in(&self, stack: &Space, w: u64) -> (r: Option<(u64, Rect)>)
        requires
            self@.with_stack(stack.elements@).wf(),
            self@.windows.contains_key(w),
        ensures
            r is Some <==> self@.with_stack(stack.elements@).has_stacked_parent(w),
            r matches Some((parent, geometry)) ==> {
                &&& self@.windows[w].parent == Some(parent)
                &&& geometry == self@.with_stack(stack.elements@).element_geometry(parent)
            },
    {
        let parent: u64 = match self.windows.get(&w) {
            Some(win) => match win.parent {
                Some(parent) => parent,
                None => {
                    return None;
                },
            },
            None => {
                return None;
            },
        };
        match stack.position(parent) {
            Some(i) => {
                assert(space::stacked(self@.with_stack(stack.elements@).elements, parent));
                match self.windows.get(&parent) {
                    Some(win) => Some(
                        (parent, Rect { loc: stack.elements[i].loc, size: win.geometry.size }),
                    ),
                    None => None,
                }
            },
            None => None,
        }
    }

    /// Whether the dialog `w` can be placed over its parent in `stack`, and if so it is.
    fn center_in(&self, stack: &mut Space, w: u64) -> (r: bool)
        requires
            self@.with_stack(old(stack).elements@).wf(),
            self@.windows.contains_key(w),
        ensures
            r == self@.with_stack(old(stack).elements@).child_fits(w),
            r ==> final(stack).elements@ == self@.with_stack(old(stack).elements@).center_child(
                w,
            ).elements,
            r ==> self@.with_stack(final(stack).elements@).wf(),
    {
        let (parent, geometry): (u64, Rect) = match self.parent_in(stack, w) {
            Some(place) => place,
            None => {
                return true;
            },
        };
        let size: Size = match self.windows.get(&w) {
            Some(win) => win.geometry.size,
            None => {
                return true;
            },
        };
        if !geometry.can_place_child(size) {
            return false;
        }
        let loc = child_loc(geometry, size);
        let ghost before = stack.elements@;
        proof {
            space::lemma_moves(before, w, loc);
            space::lemma_raised_above(space::relocated(before, w, loc), w, parent);
        }
        stack.relocate_element(w, loc);
        stack.raise_element_above(w, parent);
        proof {
            assert forall|v: u64| #[trigger] space::stacked(
                stack.elements@,
                v,
            ) implies self@.windows.contains_key(v) by {
                assert(space::stacked(space::relocated(before, w, loc), v));
                assert(space::stacked(self@.with_stack(before).elements, v));
            }
        }
        true
    }

    /// Whether the parentless window `w` can be placed in `zone`.
    fn can_place_in_zone(&self, w: u64, zone: Rect) -> (r: bool)
        requires
            self@.windows.contains_key(w),
        ensures
            r == self@.zone_fits(w, zone),
    {
        match self.windows.get(&w) {
            Some(win) => fills_zone(win.max_size, zone.size) || zone.can_center(win.geometry),
            None => false,
        }
    }

    /// Where the parentless window `w` goes in `zone`.
    fn zone_loc(&self, w: u64, zone: Rect) -> (r: Point)
        requires
            self@.windows.contains_key(w),
            self@.zone_fits(w, zone),
        ensures
            r == self@.zone_loc(w, zone),
    {
        match self.windows.get(&w) {
            Some(win) => if fills_zone(win.max_size, zone.size) {
                zone.loc
            } else {
                centered_loc(zone, win.geometry)
            },
            None => zone.loc,
        }
    }

    /// Whether `w` can be placed anew in `zone`, and if so it is in `stack`.
    fn reflow_window_in(&self, stack: &mut Space, w: u64, zone: Rect) -> (r: bool)
        requires
            self@.with_stack(old(stack).elements@).wf(),
            self@.windows.contains_key(w),
        ensures
            r == self@.with_stack(old(stack).elements@).reflow_window_fits(w, zone),
            r ==> final(stack).elements@ == self@.with_stack(old(stack).elements@).reflow_window(
                w,
                zone,
            ).elements,
            r ==> self@.with_stack(final(stack).elements@).wf(),
    {
        let has_parent: bool = match self.windows.get(&w) {
            Some(win) => win.parent.is_some(),
            None => false,
        };
        if has_parent {
            return self.center_in(stack, w);
        }
        if !self.can_place_in_zone(w, zone) {
            return false;
        }
        let loc = self.zone_loc(w, zone);
        let ghost before = stack.elements@;
        stack.relocate_element(w, loc);
        proof {
            lemma_relocated_wf(self@.with_stack(before), w, loc);
        }
        true
    }

    /// Whether the windows of `stack` can be placed anew in `zone`, and if so they are.
    fn reflow_in(&self, stack: &mut Space, zone: Rect) -> (r: bool)
        requires
            self@.with_stack(old(stack).elements@).wf(),
        ensures
            r == self@.with_stack(old(stack).elements@).reflow_windows_fit(
                space::windows_of(old(stack).elements@),
                zone,
            ),
            r ==> final(stack).elements@ == self@.with_stack(old(stack).elements@).reflow_windows(
                space::windows_of(old(stack).elements@),
                zone,
            ).elements,
            r ==> self@.with_stack(final(stack).elements@).wf(),
    {
        let ghost base = self@.with_stack(stack.elements@);
        let ghost ws = space::windows_of(base.elements);
        let walk = copy_stack(&stack.elements);
        let n: usize = walk.elements.len();
        let mut i: usize = 0;
        assert(ws.take(0) =~= Seq::empty());
        while i < n
            invariant
                base.wf(),
                base == self@.with_stack(old(stack).elements@),
                ws == space::windows_of(base.elements),
                walk.elements@ == base.elements,
                n == ws.len(),
                i <= n,
                base.reflow_windows_fit(ws.take(i as int), zone),
                base.reflow_windows(ws.take(i as int), zone).shaped_like(
                    self@.with_stack(stack.elements@),
                ),
                self@.with_stack(stack.elements@).wf(),
            decreases n - i,
        {
            let w: u64 = walk.elements[i].window;
            let ghost here = self@.with_stack(stack.elements@);
            let ghost there = base.reflow_windows(ws.take(i as int), zone);
            proof {
                assert(base.elements[i as int].window == w);
                assert(space::stacked(base.elements, w));
                assert(ws.take(i + 1).drop_last() =~= ws.take(i as int));
                assert(ws.take(i + 1).last() == w);
                lemma_reflow_window_shaped(there, here, w, zone);
            }
            if !self.reflow_window_in(stack, w, zone) {
                proof {
                    if base.reflow_windows_fit(ws, zone) {
                        lemma_fit_prefix(base, ws, zone, i + 1);
                    }
                }
                return false;
            }
            proof {
                lemma_reflow_window_keeps_shapes(here, w, zone);
            }
            i = i + 1;
        }
        assert(ws.take(n as int) =~= ws);
        true
    }

    /// Whether [`State::reflow_toplevels`] stays within the coordinate range.
    pub fn can_reflow(&self) -> (r: bool)
        requires
            self@.wf(),
        ensures
            r == self@.reflow_fits(),
    {
        match self.zone() {
            Some(zone) => {
                let mut stack = copy_stack(&self.space.elements);
                assert(self@.with_stack(stack.elements@) == self@);
                self.reflow_in(&mut stack, zone)
            },
            None => true,
        }
    }

    /// The topmost fullscreen window of `stack`, once `w` is treated as mapped.
    fn front_in(&self, stack: &Space, w: u64) -> (r: Option<u64>)
        requires
            self@.toplevels.contains_key(w),
        ensures
            r == state::topmost_fullscreen(
                stack.elements@,
                self@.toplevels.insert(w, self@.mapped_state(w)),
            ),
    {
        let ghost treated = self@.toplevels.insert(w, self@.mapped_state(w));
        let ghost es = stack.elements@;
        let mut i: usize = stack.elements.len();
        assert(es.take(i as int) =~= es);
        while i > 0
            invariant
                es == stack.elements@,
                treated == self@.toplevels.insert(w, self@.mapped_state(w)),
                i <= es.len(),
                state::topmost_fullscreen(es.take(i as int), treated) == state::topmost_fullscreen(
                    es,
                    treated,
                ),
            decreases i,
        {
            let v: u64 = stack.elements[i - 1].window;
            assert(es.take(i as int).drop_last() =~= es.take(i - 1));
            assert(es.take(i as int).last() == es[i - 1]);
            if v != w && self.in_mode(v, WindowMode::Fullscreen) {
                return Some(v);
            }
            i = i - 1;
        }
        None
    }

    /// Whether `w` can be mapped, and if so it is in `stack`, which is the stack as it is.
    fn map_in(&self, stack: &mut Space, w: u64, serial: u32) -> (r: bool)
        requires
            self@.wf(),
            self@.toplevels.contains_key(w),
            old(stack).elements@ == self@.elements,
        ensures
            r == self@.map_fits(w, serial),
            r ==> final(stack).elements@ == self@.map_toplevel(w, serial).elements,
            r ==> self@.with_stack(final(stack).elements@).wf(),
    {
        let has_parent: bool = match self.windows.get(&w) {
            Some(win) => win.parent.is_some(),
            None => false,
        };
        let loc: Point = match self.zone() {
            Some(zone) => if has_parent {
                origin()
            } else if self.can_place_in_zone(w, zone) {
                self.zone_loc(w, zone)
            } else {
                return false;
            },
            None => origin(),
        };
        let ghost proposed = self@.propose_mapping(w);
        let ghost mapped = proposed.map_below_fullscreen(w, self@.mapped_loc(w));
        let front = self.front_in(stack, w);
        proof {
            assert(loc == self@.mapped_loc(w));
            assert(front == proposed.active_fullscreen_window());
            space::lemma_moves(stack.elements@, w, loc);
            if let Some(f) = front {
                space::lemma_mapped_below(stack.elements@, w, loc, f);
            }
        }
        match front {
            Some(f) => stack.map_element_below(w, loc, f),
            None => stack.map_element(w, loc),
        }
        assert(stack.elements@ == mapped.elements);
        let front = self.front_in(stack, w);
        assert(front == mapped.active_fullscreen_window());
        let refused: bool = match front {
            Some(f) => f != w,
            None => false,
        };
        proof {
            space::lemma_moves(stack.elements@, w, loc);
        }
        if !refused {
            stack.raise_element(w);
        }
        let ghost stacked = self@.stack_toplevel(w, serial);
        proof {
            assert(refused == mapped.focus_refused(w));
            assert(stack.elements@ == stacked.elements);
            let here = self@.with_stack(stack.elements@);
            assert forall|v: u64| #[trigger] space::stacked(
                here.elements,
                v,
            ) implies here.windows.contains_key(v) by {
                assert(space::stacked(self@.elements, v) || v == w);
            }
            assert(here.wf());
            assert(stacked.shaped_like(here));
            lemma_center_shaped(stacked, here, w);
        }
        self.center_in(stack, w)
    }

    /// Whether the first commit of the toplevel `w` stays within the coordinate range.
    pub fn can_first_commit(&self, w: u64, serial: u32) -> (r: bool)
        requires
            self@.wf(),
            self@.toplevels.contains_key(w),
        ensures
            r == self@.first_commit_fits(w, serial),
    {
        if self.is_anonymous(w) {
            return true;
        }
        let mut stack = copy_stack(&self.space.elements);
        self.map_in(&mut stack, w, serial)
    }

    /// Whether [`State::promote_transient`] stays within the coordinate range.
    pub fn can_promote(&self, w: u64, serial: u32) -> (r: bool)
        requires
            self@.wf(),
        ensures
            r == (self@.is_transient(w) ==> self@.first_commit_fits(w, serial)),
    {
        !self.is_transient(w) || self.can_first_commit(w, serial)
    }

    /// Whether the maximize decision of the mapped window `w` can be looked at again, and if so it
    /// is in `stack`.
    fn recheck_in(&self, stack: &mut Space, w: u64) -> (r: bool)
        requires
            self@.with_stack(old(stack).elements@).wf(),
            self@.windows.contains_key(w),
        ensures
            r == (self@.size_outdated(w) ==> self@.zone_fits(w, self@.zone()->0)),
            r ==> final(stack).elements@ == if self@.size_outdated(w)
                && !self@.windows[w].max_size.fills_spec(self@.zone()->0.size) {
                space::relocated(
                    old(stack).elements@,
                    w,
                    self@.zone()->0.centered_spec(self@.windows[w].geometry),
                )
            } else {
                old(stack).elements@
            },
            r ==> self@.with_stack(final(stack).elements@).wf(),
    {
        let zone: Rect = match self.zone() {
            Some(zone) => zone,
            None => {
                return true;
            },
        };
        let geometry: Rect = match self.windows.get(&w) {
            Some(win) => {
                let fills: bool = fills_zone(win.max_size, zone.size);
                if win.parent.is_some() || fills || fills == win.committed_maximized {
                    return true;
                }
                win.geometry
            },
            None => {
                return true;
            },
        };
        if !zone.can_center(geometry) {
            return false;
        }
        let loc = centered_loc(zone, geometry);
        let ghost before = stack.elements@;
        stack.relocate_element(w, loc);
        proof {
            lemma_relocated_wf(self@.with_stack(before), w, loc);
        }
        true
    }

    /// Whether the transient `w` can be kept on the output.
    fn can_keep_transient_inside(&self, w: u64) -> (r: bool)
        requires
            self@.wf(),
            self@.toplevels.contains_key(w),
        ensures
            r == self@.transient_fits(w),
    {
        let transient: bool = match self.toplevels.get(&w) {
            Some(ws) => ws.kind.is_transient(),
            None => false,
        };
        match (self.output_geometry(), self.windows.get(&w)) {
            (Some(geo), Some(win)) => {
                let size: Size = win.geometry.size;
                !transient || size.w > geo.size.w || size.h > geo.size.h || geo.can_keep_inside(size)
            },
            _ => true,
        }
    }

    /// Whether the commit of the mapped window `w` stays within the coordinate range, and if so it
    /// is played through in `stack`, which is the stack as it is.
    fn later_commit_in(
        &self,
        stack: &mut Space,
        w: u64,
        Ghost(pointer): Ghost<Option<Point>>,
        serial: u32,
    ) -> (r: bool)
        requires
            self@.wf(),
            self@.toplevels.contains_key(w),
            self@.toplevels[w].mapped,
            old(stack).elements@ == self@.elements,
        ensures
            r == self@.toplevel_commit_fits(w, pointer, serial),
            r ==> final(stack).elements@ == self@.toplevel_commit(w, pointer, serial).elements,
            r ==> self@.toplevel_commit(w, pointer, serial).shaped_like(
                self@.with_stack(final(stack).elements@),
            ),
            r ==> self@.with_stack(final(stack).elements@).wf(),
    {
        proof {
            reveal(StateView::toplevel_commit);
            reveal(StateView::toplevel_commit_fits);
            assert(self@.with_stack(stack.elements@) == self@);
        }
        if !self.can_keep_transient_inside(w) {
            return false;
        }
        let ghost kept = self@.keep_transient_inside(w);
        let sent: bool = match self.windows.get(&w) {
            Some(win) => win.initial_configure_sent,
            None => false,
        };
        let settled: bool = self.is_transient(w) || !sent || self.in_mode(
            w,
            WindowMode::Fullscreen,
        );
        if !settled {
            if !self.recheck_in(stack, w) {
                return false;
            }
        }
        proof {
            let checked = kept.recheck_maximize(w);
            assert(checked.elements == stack.elements@);
            assert(checked.shaped_like(self@.with_stack(stack.elements@)));
            lemma_center_shaped(checked, self@.with_stack(stack.elements@), w);
            lemma_center_keeps_shapes(self@.with_stack(stack.elements@), w);
        }
        self.center_in(stack, w)
    }

    /// Whether the first commit of `w` stays within the coordinate range, and if so it is played
    /// through in `stack`, which is the stack as it is.
    fn early_commit_in(
        &self,
        stack: &mut Space,
        w: u64,
        Ghost(pointer): Ghost<Option<Point>>,
        serial: u32,
    ) -> (r: bool)
        requires
            self@.wf(),
            self@.toplevels.contains_key(w),
            !self@.toplevels[w].mapped,
            old(stack).elements@ == self@.elements,
        ensures
            r == self@.toplevel_commit_fits(w, pointer, serial),
            r ==> final(stack).elements@ == self@.toplevel_commit(w, pointer, serial).elements,
            r ==> self@.toplevel_commit(w, pointer, serial).shaped_like(
                self@.with_stack(final(stack).elements@),
            ),
            r ==> self@.with_stack(final(stack).elements@).wf(),
    {
        proof {
            reveal(StateView::toplevel_commit);
            reveal(StateView::toplevel_commit_fits);
            assert(self@.with_stack(stack.elements@) == self@);
        }
        if self.is_anonymous(w) {
            return true;
        }
        if !self.map_in(stack, w, serial) {
            return false;
        }
        let ghost mapped = self@.map_toplevel(w, serial);
        proof {
            lemma_map_keeps_shapes(self@, w, serial);
        }
        if !self.recheck_in(stack, w) {
            return false;
        }
        proof {
            let checked = mapped.recheck_maximize(w);
            assert(checked.elements == stack.elements@);
            assert(checked.shaped_like(self@.with_stack(stack.elements@)));
            lemma_center_shaped(checked, self@.with_stack(stack.elements@), w);
            lemma_center_keeps_shapes(self@.with_stack(stack.elements@), w);
        }
        self.center_in(stack, w)
    }

    /// Whether the toplevel side of a commit stays within the coordinate range, and if so it is
    /// played through in `stack`, which is the stack as it is.
    fn toplevel_commit_in(
        &self,
        stack: &mut Space,
        surface: u64,
        Ghost(pointer): Ghost<Option<Point>>,
        serial: u32,
    ) -> (r: bool)
        requires
            self@.wf(),
            old(stack).elements@ == self@.elements,
        ensures
            r == self@.toplevel_commit_fits(surface, pointer, serial),
            r ==> self@.toplevel_commit(surface, pointer, serial).shaped_like(
                self@.with_stack(final(stack).elements@),
            ),
            r ==> self@.with_stack(final(stack).elements@).wf(),
    {
        match self.toplevels.get(&surface) {
            Some(ws) => if ws.mapped {
                self.later_commit_in(stack, surface, Ghost(pointer), serial)
            } else {
                self.early_commit_in(stack, surface, Ghost(pointer), serial)
            },
            None => {
                proof {
                    reveal(StateView::toplevel_commit);
                    reveal(StateView::toplevel_commit_fits);
                    assert(self@.with_stack(stack.elements@) == self@);
                }
                true
            },
        }
    }

    /// Whether the layer side of a commit stays within the coordinate range, and if so it is played
    /// through in `stack`, which is the stack as it is.
    fn layer_commit_in(&self, stack: &mut Space, surface: u64, layout_changed: bool) -> (r: bool)
        requires
            self@.wf(),
            self@.is_layer(surface),
            old(stack).elements@ == self@.elements,
        ensures
            r == self@.layer_commit_fits(surface, layout_changed),
            r ==> self@.layer_commit(surface, layout_changed).shaped_like(
                self@.with_stack(final(stack).elements@),
            ),
            r ==> self@.with_stack(final(stack).elements@).wf(),
    {
        proof {
            reveal(StateView::layer_commit);
            assert(self@.with_stack(stack.elements@) == self@);
        }
        if !layout_changed {
            return true;
        }
        let zone: Rect = match self.zone() {
            Some(zone) => zone,
            None => {
                return true;
            },
        };
        proof {
            let ws = space::windows_of(self@.elements);
            let s = if !self@.layer(surface).initial_configure_sent {
                self@.emit(Command::SendLayerConfigure { surface })
            } else {
                self@
            };
            lemma_reflow_windows_shaped(s, self@, ws, zone);
            lemma_reflow_windows_keep_shapes(self@, ws, zone);
        }
        self.reflow_in(stack, zone)
    }

    /// Whether [`State::commit`] stays within the coordinate range.
    pub fn can_commit(
        &self,
        surface: u64,
        child: Option<u64>,
        popup: Option<PopupCommit>,
        layout_changed: bool,
        pointer: Option<Point>,
        serial: u32,
    ) -> (r: bool)
        requires
            self@.wf(),
            child matches Some(w) ==> self@.windows.contains_key(w),
        ensures
            r == self@.commit_fits(surface, child, popup, layout_changed, pointer, serial),
    {
        let ghost told = self@.popup_commit(surface, popup);
        let mut stack = copy_stack(&self.space.elements);
        let layer: bool = self.find_layer(surface).is_some();
        let fits: bool = if layer {
            self.layer_commit_in(&mut stack, surface, layout_changed)
        } else {
            self.toplevel_commit_in(&mut stack, surface, Ghost(pointer), serial)
        };
        proof {
            lemma_commit_same(self@, told, surface, pointer, serial);
            lemma_layer_commit_same(self@, told, surface, layout_changed);
        }
        if !fits {
            return false;
        }
        match child {
            Some(w) => {
                proof {
                    let done = told.role_commit(surface, layout_changed, pointer, serial);
                    let here = self@.with_stack(stack.elements@);
                    let mid = self@.role_commit(surface, layout_changed, pointer, serial);
                    assert(mid.shaped_like(here));
                    assert(mid.shaped_like(done));
                    lemma_center_shaped(mid, here, w);
                    lemma_center_shaped(mid, done, w);
                }
                self.center_in(&mut stack, w)
            },
            None => true,
        }
    }
}

impl StateView {
    /// Whether `other` is the same desktop but for what is queued.
    pub open spec fn same_but_commands(self, other: StateView) -> bool {
        other == (StateView { commands: other.commands, ..self })
    }
}

/// What is queued makes no difference to centering a dialog.
proof fn lemma_center_same(s: StateView, t: StateView, w: u64)
    requires
        s.same_but_commands(t),
    ensures
        s.child_fits(w) == t.child_fits(w),
        s.center_child(w).same_but_commands(t.center_child(w)),
{
}

/// What is queued makes no difference to looking at a maximize decision again.
proof fn lemma_recheck_same(s: StateView, t: StateView, w: u64)
    requires
        s.same_but_commands(t),
    ensures
        s.recheck_fits(w) == t.recheck_fits(w),
        s.recheck_maximize(w).same_but_commands(t.recheck_maximize(w)),
{
}

/// What is queued makes no difference to mapping a window.
proof fn lemma_map_same(s: StateView, t: StateView, w: u64, serial: u32)
    requires
        s.same_but_commands(t),
    ensures
        s.map_fits(w, serial) == t.map_fits(w, serial),
        s.map_toplevel(w, serial).same_but_commands(t.map_toplevel(w, serial)),
{
    let a = s.propose_mapping(w);
    let b = t.propose_mapping(w);
    assert(a.same_but_commands(b));
    let a = a.map_below_fullscreen(w, s.mapped_loc(w));
    let b = b.map_below_fullscreen(w, t.mapped_loc(w));
    assert(a.same_but_commands(b));
    let a = a.focus_window(w, serial);
    let b = b.focus_window(w, serial);
    assert(a.same_but_commands(b));
    assert(s.stack_toplevel(w, serial).same_but_commands(t.stack_toplevel(w, serial)));
    lemma_center_same(s.stack_toplevel(w, serial), t.stack_toplevel(w, serial), w);
}

/// What is queued makes no difference to a commit of a toplevel.
proof fn lemma_commit_same(
    s: StateView,
    t: StateView,
    w: u64,
    pointer: Option<Point>,
    serial: u32,
)
    requires
        s.same_but_commands(t),
    ensures
        s.toplevel_commit_fits(w, pointer, serial) == t.toplevel_commit_fits(w, pointer, serial),
        s.toplevel_commit(w, pointer, serial).same_but_commands(
            t.toplevel_commit(w, pointer, serial),
        ),
{
    reveal(StateView::toplevel_commit);
    reveal(StateView::toplevel_commit_fits);
    lemma_map_same(s, t, w, serial);
    let a = s.commit_mapping(w, pointer, serial);
    let b = t.commit_mapping(w, pointer, serial);
    assert(a.same_but_commands(b));
    lemma_recheck_same(a, b, w);
    lemma_center_same(a.recheck_maximize(w), b.recheck_maximize(w), w);
}

/// What is queued makes no difference to a commit of a layer surface.
proof fn lemma_layer_commit_same(s: StateView, t: StateView, surface: u64, layout_changed: bool)
    requires
        s.same_but_commands(t),
    ensures
        s.is_layer(surface) == t.is_layer(surface),
        s.layer_commit_fits(surface, layout_changed) == t.layer_commit_fits(surface, layout_changed),
        s.layer_commit(surface, layout_changed).shaped_like(
            t.layer_commit(surface, layout_changed),
        ),
{
    reveal(StateView::layer_commit);
    assert(s.is_layer(surface) == t.is_layer(surface));
    if s.is_layer(surface) {
        assert(s.layer(surface) == t.layer(surface));
        let first = !s.layer(surface).initial_configure_sent;
        let configure = Command::SendLayerConfigure { surface };
        let a = if first {
            s.emit(configure)
        } else {
            s
        };
        let b = if first {
            t.emit(configure)
        } else {
            t
        };
        if let Some(zone) = s.zone() {
            let ws = space::windows_of(s.elements);
            lemma_reflow_windows_shaped(s, t, ws, zone);
            lemma_reflow_windows_shaped(a, b, ws, zone);
        }
    }
}

/// Moving a window keeps the desktop in order.
proof fn lemma_relocated_wf(s: StateView, w: u64, loc: Point)
    requires
        s.wf(),
    ensures
        s.with_stack(space::relocated(s.elements, w, loc)).wf(),
{
    space::lemma_moves(s.elements, w, loc);
    let t = s.with_stack(space::relocated(s.elements, w, loc));
    assert forall|v: u64| #[trigger] space::stacked(t.elements, v) implies t.windows.contains_key(
        v,
    ) by {
        assert(space::stacked(s.elements, v));
    }
}

/// Centering a dialog depends on the stack and the shapes alone.
proof fn lemma_center_shaped(s: StateView, t: StateView, w: u64)
    requires
        s.shaped_like(t),
    ensures
        s.child_fits(w) == t.child_fits(w),
        s.center_child(w).shaped_like(t.center_child(w)),
{
    assert(s.windows[w].parent == t.windows[w].parent);
    if let Some(p) = s.windows[w].parent {
        assert(s.windows[p].geometry == t.windows[p].geometry);
    }
}

/// Placing a window anew depends on the stack and the shapes alone.
proof fn lemma_reflow_window_shaped(s: StateView, t: StateView, w: u64, zone: Rect)
    requires
        s.shaped_like(t),
    ensures
        s.reflow_window_fits(w, zone) == t.reflow_window_fits(w, zone),
        s.reflow_window(w, zone).shaped_like(t.reflow_window(w, zone)),
{
    assert(s.windows[w].parent == t.windows[w].parent);
    if let Some(p) = s.windows[w].parent {
        assert(s.windows[p].geometry == t.windows[p].geometry);
    }
    lemma_reflow_window_keeps_shapes(s, w, zone);
    lemma_reflow_window_keeps_shapes(t, w, zone);
    let a = s.reflow_window(w, zone);
    let b = t.reflow_window(w, zone);
    assert(a.elements == b.elements);
    assert forall|v: u64|
        #![trigger a.windows[v]]
        #![trigger b.windows[v]]
        {
            &&& a.windows[v].parent == b.windows[v].parent
            &&& a.windows[v].geometry == b.windows[v].geometry
            &&& a.windows[v].max_size == b.windows[v].max_size
        } by {
        assert(s.windows[v].parent == t.windows[v].parent);
        assert(a.windows[v].parent == s.windows[v].parent);
        assert(b.windows[v].parent == t.windows[v].parent);
    }
}

/// Centering a dialog keeps the shapes.
proof fn lemma_center_keeps_shapes(s: StateView, w: u64)
    ensures
        s.center_child(w).shaped_like(s.with_stack(s.center_child(w).elements)),
{
}

/// Placing windows anew depends on the stack and the shapes alone.
proof fn lemma_reflow_windows_shaped(s: StateView, t: StateView, ws: Seq<u64>, zone: Rect)
    requires
        s.shaped_like(t),
    ensures
        s.reflow_windows_fit(ws, zone) == t.reflow_windows_fit(ws, zone),
        s.reflow_windows(ws, zone).shaped_like(t.reflow_windows(ws, zone)),
    decreases ws.len(),
{
    if ws.len() > 0 {
        lemma_reflow_windows_shaped(s, t, ws.drop_last(), zone);
        lemma_reflow_window_shaped(
            s.reflow_windows(ws.drop_last(), zone),
            t.reflow_windows(ws.drop_last(), zone),
            ws.last(),
            zone,
        );
    }
}

/// Placing windows anew keeps the shapes.
proof fn lemma_reflow_windows_keep_shapes(s: StateView, ws: Seq<u64>, zone: Rect)
    ensures
        s.reflow_windows(ws, zone).shaped_like(s.with_stack(s.reflow_windows(ws, zone).elements)),
    decreases ws.len(),
{
    if ws.len() > 0 {
        let t = s.reflow_windows(ws.drop_last(), zone);
        lemma_reflow_windows_keep_shapes(s, ws.drop_last(), zone);
        lemma_reflow_window_keeps_shapes(t, ws.last(), zone);
        let u = s.reflow_windows(ws, zone);
        let v = s.with_stack(u.elements);
        assert forall|x: u64|
            #![trigger u.windows[x]]
            #![trigger v.windows[x]]
            {
                &&& u.windows[x].parent == v.windows[x].parent
                &&& u.windows[x].geometry == v.windows[x].geometry
                &&& u.windows[x].max_size == v.windows[x].max_size
            } by {
            assert(t.windows[x].parent == s.windows[x].parent);
            assert(u.windows[x].parent == t.windows[x].parent);
        }
    }
}

/// Mapping a window keeps the shapes; it has been configured then, and is neither a transient nor
/// fullscreen.
proof fn lemma_map_keeps_shapes(s: StateView, w: u64, serial: u32)
    ensures
        s.map_toplevel(w, serial).shaped_like(s.with_stack(s.map_toplevel(w, serial).elements)),
        s.map_toplevel(w, serial).outputs == s.outputs,
        s.map_toplevel(w, serial).windows[w] == (Window {
            initial_configure_sent: true,
            ..s.windows[w]
        }),
        !s.map_toplevel(w, serial).is_transient(w),
        !s.map_toplevel(w, serial).in_mode(w, WindowMode::Fullscreen),
{
}

/// Placing a window anew keeps the shapes.
proof fn lemma_reflow_window_keeps_shapes(s: StateView, w: u64, zone: Rect)
    ensures
        s.reflow_window(w, zone).shaped_like(s.with_stack(s.reflow_window(w, zone).elements)),
{
}

} // verus!
