//! A shell that knows toplevels only: every window fills the zone, and the one on top has the focus.

use vstd::prelude::*;
use crate::command::Command;
use crate::geometry::{Point, Rect, Size};
use crate::handlers::xdg_activation::TOKEN_LIFETIME_SECS;
use crate::space::Element;
use crate::state::{State, StateView};
use crate::toplevel::PendingChange;

verus! {

broadcast use vstd::std_specs::hash::group_hash_axioms;

/// A desktop without dialogs, transients, popups and window modes.
pub struct ToplevelShell {
    pub state: State,
}

impl View for ToplevelShell {
    type V = StateView;

    open spec fn view(&self) -> StateView {
        self.state@
    }
}

/// The toplevel-only counterparts of the transitions.
impl StateView {
    /// `w` told whether it is `active`, unless it is still to get its initial configure, which says
    /// so then.
    pub open spec fn activate_one(self, w: u64, active: bool) -> StateView {
        let s = self.set_pending(w, PendingChange::activation(active));
        if s.windows[w].initial_configure_sent {
            s.send_pending_configure(w)
        } else {
            s
        }
    }

    /// `w` and no other of the windows of `es` activated.
    pub open spec fn activate_only(self, es: Seq<Element>, w: u64) -> StateView
        decreases es.len(),
    {
        if es.len() == 0 {
            self
        } else {
            self.activate_only(es.drop_last(), w).activate_one(
                es.last().window,
                es.last().window == w,
            )
        }
    }

    pub open spec fn plain_focus_window(self, w: u64, serial: u32) -> StateView {
        let s = self.raise_window(w, true);
        s.activate_only(s.elements, w).set_keyboard_focus(Some(w), serial)
    }

    pub open spec fn plain_focus_topmost(self, serial: u32) -> StateView {
        if self.elements.len() > 0 {
            self.plain_focus_window(self.elements.last().window, serial)
        } else {
            self.set_keyboard_focus(None, serial)
        }
    }

    pub open spec fn plain_new_toplevel(self, w: u64, serial: u32) -> StateView {
        (match self.zone() {
            Some(zone) => self.set_pending(w, PendingChange::sized(zone.size)).map_window(
                w,
                zone.loc,
                true,
            ),
            None => self.map_window(w, Point { x: 0, y: 0 }, true),
        }).plain_focus_window(w, serial)
    }

    pub open spec fn plain_toplevel_destroyed(self, w: u64, serial: u32) -> StateView {
        (if crate::space::stacked(self.elements, w) {
            self.unmap_window(w)
        } else {
            self
        }).plain_focus_topmost(serial)
    }

    /// `w` sized and placed to fill `zone`.
    pub open spec fn fill_zone(self, w: u64, zone: Rect) -> StateView {
        let s = self.set_pending(w, PendingChange::sized(zone.size));
        (if s.windows[w].initial_configure_sent {
            s.send_pending_configure(w)
        } else {
            s
        }).map_window(w, zone.loc, false)
    }

    /// The windows `ws` sized and placed to fill `zone`, one after the other.
    pub open spec fn fill_zone_all(self, ws: Seq<u64>, zone: Rect) -> StateView
        decreases ws.len(),
    {
        if ws.len() == 0 {
            self
        } else {
            self.fill_zone_all(ws.drop_last(), zone).fill_zone(ws.last(), zone)
        }
    }

    pub open spec fn plain_reflow_toplevels(self) -> StateView {
        match self.zone() {
            Some(zone) => self.fill_zone_all(crate::space::windows_of(self.elements), zone),
            None => self,
        }
    }

    pub open spec fn plain_commit(self, surface: u64) -> StateView {
        if crate::space::stacked(self.elements, surface)
            && !self.windows[surface].initial_configure_sent {
            self.send_configure(surface)
        } else {
            self
        }
    }

    pub open spec fn plain_request_activation(
        self,
        age_secs: u64,
        surface: u64,
        serial: u32,
    ) -> StateView {
        if age_secs < TOKEN_LIFETIME_SECS && crate::space::stacked(self.elements, surface) {
            self.plain_focus_window(surface, serial)
        } else {
            self
        }
    }

    pub open spec fn plain_arranged(self, size: Size) -> StateView {
        self.plain_reflow_toplevels().lock_surfaces_resized(size)
    }
}

impl ToplevelShell {
    /// A new toplevel `w`: it fills the zone, goes on top and gets the focus.
    pub fn new_toplevel(&mut self, w: u64, serial: u32)
        requires
            old(self)@.wf(),
            old(self)@.windows.contains_key(w),
        ensures
            final(self)@ == old(self)@.plain_new_toplevel(w, serial),
            final(self)@.wf(),
            final(self)@.windows.dom() == old(self)@.windows.dom(),
    {
        match self.state.zone() {
            Some(zone) => {
                self.state.set_pending(w, PendingChange::sized(zone.size));
                self.state.map_window(w, zone.loc, true);
            },
            None => {
                self.state.map_window(w, Point { x: 0, y: 0 }, true);
            },
        }
        self.focus_window(w, serial);
    }

    /// The toplevel `w` is gone: the topmost window left gets the focus.
    pub fn toplevel_destroyed(&mut self, w: u64, serial: u32)
        requires
            old(self)@.wf(),
        ensures
            final(self)@ == old(self)@.plain_toplevel_destroyed(w, serial),
            final(self)@.wf(),
            final(self)@.windows.dom() == old(self)@.windows.dom(),
    {
        if self.state.space.contains(w) {
            self.state.unmap_window(w);
        }
        self.focus_topmost(serial);
    }

    /// Raises the window `w`, activates it (and only it) and gives it keyboard focus.
    pub fn focus_window(&mut self, w: u64, serial: u32)
        requires
            old(self)@.wf(),
            old(self)@.windows.contains_key(w),
        ensures
            final(self)@ == old(self)@.plain_focus_window(w, serial),
            final(self)@.wf(),
            final(self)@.windows.dom() == old(self)@.windows.dom(),
    {
        self.state.raise_window(w, true);
        let ghost raised = self@;
        let n: usize = self.state.space.elements.len();
        let mut i: usize = 0;
        assert(raised.elements.take(0) =~= Seq::empty());
        while i < n
            invariant
                raised.wf(),
                n == raised.elements.len(),
                i <= n,
                self@ == raised.activate_only(raised.elements.take(i as int), w),
                self@.wf(),
                self@.elements == raised.elements,
                self@.windows.dom() == raised.windows.dom(),
            decreases n - i,
        {
            let e: u64 = self.state.space.elements[i].window;
            proof {
                assert(raised.elements.take(i + 1).drop_last() =~= raised.elements.take(i as int));
                assert(raised.elements.take(i + 1).last() == raised.elements[i as int]);
                assert(crate::space::stacked(raised.elements, e));
                assert(self@.windows.dom().contains(e));
            }
            self.activate_one(e, e == w);
            i = i + 1;
        }
        assert(raised.elements.take(n as int) =~= raised.elements);
        self.state.set_keyboard_focus(Some(w), serial);
    }

    fn activate_one(&mut self, w: u64, active: bool)
        requires
            old(self)@.wf(),
            old(self)@.windows.contains_key(w),
        ensures
            final(self)@ == old(self)@.activate_one(w, active),
            final(self)@.wf(),
            final(self)@.windows.dom() == old(self)@.windows.dom(),
    {
        let sent: bool = self.initial_configure_sent(w);
        self.state.set_pending(w, PendingChange::activation(active));
        if sent {
            self.state.send_pending_configure(w);
        }
    }

    fn initial_configure_sent(&self, w: u64) -> (r: bool)
        requires
            self@.windows.contains_key(w),
        ensures
            r == self@.windows[w].initial_configure_sent,
    {
        match self.state.windows.get(&w) {
            Some(win) => win.initial_configure_sent,
            None => false,
        }
    }

    /// Resizes and repositions every window to fill the zone. The stacking order stays.
    pub fn reflow_toplevels(&mut self)
        requires
            old(self)@.wf(),
        ensures
            final(self)@ == old(self)@.plain_reflow_toplevels(),
            final(self)@.wf(),
            final(self)@.windows.dom() == old(self)@.windows.dom(),
            crate::space::windows_of(final(self)@.elements) == crate::space::windows_of(
                old(self)@.elements,
            ),
    {
        let zone: Rect = match self.state.zone() {
            Some(zone) => zone,
            None => {
                return;
            },
        };
        let ghost before = self@;
        let ghost ws = crate::space::windows_of(before.elements);
        let windows = self.state.stacked_windows();
        let n: usize = windows.len();
        let mut i: usize = 0;
        assert(ws.take(0) =~= Seq::empty());
        while i < n
            invariant
                before.wf(),
                ws == crate::space::windows_of(before.elements),
                windows@ == ws,
                n == ws.len(),
                i <= n,
                self@ == before.fill_zone_all(ws.take(i as int), zone),
                self@.wf(),
                self@.windows.dom() == before.windows.dom(),
            decreases n - i,
        {
            let w: u64 = windows[i];
            proof {
                assert(before.elements[i as int].window == w);
                assert(crate::space::stacked(before.elements, w));
                assert(before.windows.dom().contains(w));
                assert(ws.take(i + 1).drop_last() =~= ws.take(i as int));
                assert(ws.take(i + 1).last() == w);
            }
            let sent: bool = self.initial_configure_sent(w);
            self.state.set_pending(w, PendingChange::sized(zone.size));
            if sent {
                self.state.send_pending_configure(w);
            }
            self.state.map_window(w, zone.loc, false);
            i = i + 1;
        }
        proof {
            assert(ws.take(n as int) =~= ws);
            law_plain_reflow_keeps_order(before);
        }
    }

    /// Focuses the topmost window, if any is left.
    pub fn focus_topmost(&mut self, serial: u32)
        requires
            old(self)@.wf(),
        ensures
            final(self)@ == old(self)@.plain_focus_topmost(serial),
            final(self)@.wf(),
            final(self)@.windows.dom() == old(self)@.windows.dom(),
    {
        let n: usize = self.state.space.elements.len();
        if n > 0 {
            let w: u64 = self.state.space.elements[n - 1].window;
            assert(crate::space::stacked(self@.elements, w)) by {
                assert(self@.elements[n - 1].window == w);
            }
            self.focus_window(w, serial);
        } else {
            self.state.set_keyboard_focus(None, serial);
        }
    }

    /// A client hands in an activation token, created `age_secs` full seconds ago, for `surface`.
    pub fn request_activation(&mut self, age_secs: u64, surface: u64, serial: u32)
        requires
            old(self)@.wf(),
        ensures
            final(self)@ == old(self)@.plain_request_activation(age_secs, surface, serial),
            final(self)@.wf(),
    {
        if age_secs < TOKEN_LIFETIME_SECS {
            if self.state.space.contains(surface) {
                self.focus_window(surface, serial);
            }
        }
    }

    /// The windows and lock surfaces are fitted to the new size.
    pub fn arranged(&mut self, size: Size)
        requires
            old(self)@.wf(),
        ensures
            final(self)@ == old(self)@.plain_arranged(size),
            final(self)@.wf(),
            final(self)@.windows.dom() == old(self)@.windows.dom(),
    {
        self.reflow_toplevels();
        self.state.resize_lock_surfaces(size);
    }
}

/// A commit of `surface`: a stacked toplevel gets its initial configure with the first one.
pub fn handle_commit(shell: &mut ToplevelShell, surface: u64)
    requires
        old(shell)@.wf(),
    ensures
        final(shell)@ == old(shell)@.plain_commit(surface),
        final(shell)@.wf(),
{
    if shell.state.space.contains(surface) {
        if !shell.initial_configure_sent(surface) {
            shell.state.send_configure(surface);
        }
    }
}

/// Filling the zone moves every window to the corner of the zone and keeps the stacking order.
pub proof fn law_plain_reflow_keeps_order(s: StateView)
    requires
        s.wf(),
        s.zone() is Some,
    ensures
        crate::space::windows_of(s.plain_reflow_toplevels().elements) == crate::space::windows_of(
            s.elements,
        ),
        forall|i: int|
            0 <= i < s.elements.len() ==> (#[trigger] s.plain_reflow_toplevels().elements[i]).loc
                == s.zone()->0.loc,
{
    let zone = s.zone()->0;
    let ws = crate::space::windows_of(s.elements);
    let n = s.elements.len() as int;
    lemma_fill_rotates(s, zone, n);
    assert(ws.take(n) =~= ws);
    assert(s.elements.take(n) =~= s.elements);
    assert(crate::space::windows_of(s.plain_reflow_toplevels().elements) =~= ws);
}

/// The stack `es` once its first `k` windows have been placed: they are on top, in their order, at
/// `loc`, and the others are below, as they were.
pub open spec fn rotated(es: Seq<Element>, k: int, loc: Point) -> Seq<Element> {
    es.skip(k) + es.take(k).map_values(|e: Element| Element { window: e.window, loc })
}

/// Placing the next window takes it from the bottom to the top.
proof fn lemma_rotated(es: Seq<Element>, k: int, loc: Point)
    requires
        crate::space::distinct(es),
        0 <= k < es.len(),
    ensures
        crate::space::mapped(rotated(es, k, loc), es[k].window, loc) == rotated(es, k + 1, loc),
{
    let q = rotated(es, k, loc);
    let w = es[k].window;
    let n = es.len() as int;
    assert(q[0] == es[k]);
    assert forall|i: int| 0 <= i < n && (#[trigger] q[i]).window == w implies i == 0 by {
        if i < n - k {
            assert(q[i] == es[i + k]);
        } else {
            assert(q[i].window == es[i - (n - k)].window);
        }
    }
    assert(crate::space::stacked(q, w));
    assert(crate::space::level(q, w) == 0);
    assert(q.remove(0).push(Element { window: w, loc }) =~= rotated(es, k + 1, loc));
}

/// Filling the zone with the first `k` windows rotates the stack.
proof fn lemma_fill_rotates(s: StateView, zone: Rect, k: int)
    requires
        s.wf(),
        0 <= k <= s.elements.len(),
    ensures
        s.fill_zone_all(crate::space::windows_of(s.elements).take(k), zone).elements == rotated(
            s.elements,
            k,
            zone.loc,
        ),
    decreases k,
{
    let ws = crate::space::windows_of(s.elements);
    if k > 0 {
        lemma_fill_rotates(s, zone, k - 1);
        lemma_rotated(s.elements, k - 1, zone.loc);
        assert(ws.take(k).drop_last() =~= ws.take(k - 1));
        assert(ws.take(k).last() == s.elements[k - 1].window);
    } else {
        assert(ws.take(0) =~= Seq::empty());
        assert(rotated(s.elements, 0, zone.loc) =~= s.elements);
    }
}

/// Focusing a window puts it on top, activates just it, and gives it the keyboard focus.
pub proof fn law_plain_focus_goes_to_top(s: StateView, w: u64, serial: u32)
    requires
        s.wf(),
        crate::space::stacked(s.elements, w),
    ensures
        s.plain_focus_window(w, serial).elements.last().window == w,
        s.plain_focus_window(w, serial).commands.last() == (Command::SetKeyboardFocus {
            focus: Some(w),
            serial,
        }),
        forall|v: u64|
            #[trigger] crate::space::stacked(s.elements, v) ==> s.plain_focus_window(
                w,
                serial,
            ).commands.contains(
                Command::SetPending {
                    window: v,
                    change: PendingChange::activation(v == w),
                },
            ),
{
    let raised = s.raise_window(w, true);
    let es = raised.elements;
    let t = raised.activate_only(es, w);
    let r = s.plain_focus_window(w, serial);
    crate::space::lemma_moves(s.elements, w, Point { x: 0, y: 0 });
    lemma_activate_only_moves_none(raised, es, w);
    assert forall|v: u64| #[trigger] crate::space::stacked(s.elements, v) implies r.commands.contains(
        Command::SetPending { window: v, change: PendingChange::activation(v == w) },
    ) by {
        assert(crate::space::stacked(es, v));
        let i = crate::space::level(es, v);
        lemma_activate_only(raised, es, w, i);
        let c = Command::SetPending { window: v, change: PendingChange::activation(v == w) };
        let k = t.commands.index_of(c);
        assert(r.commands[k] == c);
    }
}

proof fn lemma_activate_only_moves_none(s: StateView, es: Seq<Element>, w: u64)
    ensures
        s.activate_only(es, w).elements == s.elements,
    decreases es.len(),
{
    if es.len() > 0 {
        lemma_activate_only_moves_none(s, es.drop_last(), w);
    }
}

proof fn lemma_activate_only(s: StateView, es: Seq<Element>, w: u64, i: int)
    requires
        0 <= i < es.len(),
    ensures
        s.activate_only(es, w).commands.contains(
            Command::SetPending {
                window: es[i].window,
                change: PendingChange::activation(es[i].window == w),
            },
        ),
    decreases es.len(),
{
    let rest = es.drop_last();
    let c = Command::SetPending {
        window: es[i].window,
        change: PendingChange::activation(es[i].window == w),
    };
    let a = s.activate_only(rest, w).commands;
    let b = s.activate_only(es, w).commands;
    if i < rest.len() {
        lemma_activate_only(s, rest, w, i);
        let k = a.index_of(c);
        assert(b[k] == c);
    } else {
        assert(b[a.len() as int] == c);
    }
}

} // verus!
