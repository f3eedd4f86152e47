//! Keyboard focus among the windows.

use vstd::prelude::*;
use crate::command::Command;
use crate::space::Element;
use crate::state::{State, StateView};

verus! {

broadcast use vstd::std_specs::hash::group_hash_axioms;

impl StateView {
    /// A pending configure for every stacked window that has been configured before.
    pub open spec fn pending_configures(self) -> Seq<Command> {
        self.elements.filter(
            |e: Element| self.windows[e.window].initial_configure_sent,
        ).map_values(|e: Element| Command::SendPendingConfigure { window: e.window })
    }

    /// Whether a fullscreen window keeps `w` from being focused.
    pub open spec fn focus_refused(self, w: u64) -> bool {
        self.active_fullscreen_window() is Some && self.active_fullscreen_window() != Some(w)
    }

    /// `w` raised, activated and focused, unless a fullscreen window keeps the focus.
    pub open spec fn focus_window(self, w: u64, serial: u32) -> StateView {
        if self.focus_refused(w) {
            self
        } else {
            let s = self.raise_window(w, true);
            StateView {
                active_window: Some(w),
                layer_shell_on_demand_focus: None,
                ..s.emit_all(s.pending_configures()).set_keyboard_focus(Some(w), serial)
            }
        }
    }

    /// The topmost window focused, or nothing when there is none.
    pub open spec fn focus_topmost(self, serial: u32) -> StateView {
        if self.elements.len() > 0 {
            self.focus_window(self.elements.last().window, serial)
        } else {
            StateView {
                active_window: None,
                layer_shell_on_demand_focus: None,
                ..self.set_keyboard_focus(None, serial)
            }
        }
    }
}

impl State {
    /// Raises the window `w`, activates it (and only it) and gives it keyboard focus. A fullscreen
    /// window keeps the focus: other windows cannot take it.
    pub fn focus_window(&mut self, w: u64, serial: u32)
        requires
            old(self)@.wf(),
            old(self)@.windows.contains_key(w),
        ensures
            final(self)@ == old(self)@.focus_window(w, serial),
            final(self)@.wf(),
    {
        if let Some(active) = self.active_fullscreen_window() {
            if active != w {
                return;
            }
        }
        self.raise_window(w, true);
        self.flush_configured();
        self.active_window = Some(w);
        self.layer_shell_on_demand_focus = None;
        self.set_keyboard_focus(Some(w), serial);
    }

    /// Sends every stacked window that has been configured before what is pending for it.
    fn flush_configured(&mut self)
        requires
            old(self)@.wf(),
        ensures
            final(self)@ == old(self)@.emit_all(old(self)@.pending_configures()),
    {
        let ghost before = self@;
        let ghost pred = |e: Element| before.windows[e.window].initial_configure_sent;
        let ghost send = |e: Element| (Command::SendPendingConfigure { window: e.window });
        let n: usize = self.space.elements.len();
        let mut i: usize = 0;
        proof {
            reveal(Seq::filter);
            assert(before.elements.take(0).filter(pred).map_values(send) =~= Seq::empty());
        }
        while i < n
            invariant
                before.wf(),
                n == before.elements.len(),
                i <= n,
                pred == (|e: Element| before.windows[e.window].initial_configure_sent),
                send == (|e: Element| (Command::SendPendingConfigure { window: e.window })),
                self@ == before.emit_all(
                    before.elements.take(i as int).filter(pred).map_values(send),
                ),
            decreases n - i,
        {
            let w: u64 = self.space.elements[i].window;
            proof {
                let es = before.elements.take(i + 1);
                assert(es.drop_last() =~= before.elements.take(i as int));
                assert(es.last() == before.elements[i as int]);
                reveal(Seq::filter);
                assert(crate::space::stacked(before.elements, w));
                if pred(es.last()) {
                    assert(es.filter(pred) == es.drop_last().filter(pred).push(es.last()));
                    assert(es.filter(pred).map_values(send) =~= es.drop_last().filter(
                        pred,
                    ).map_values(send).push(send(es.last())));
                }
            }
            if let Some(win) = self.windows.get(&w) {
                if win.initial_configure_sent {
                    self.emit(Command::SendPendingConfigure { window: w });
                }
            }
            i = i + 1;
        }
        assert(before.elements.take(n as int) =~= before.elements);
    }

    /// Focuses the topmost window, if any is left.
    pub fn focus_topmost(&mut self, serial: u32)
        requires
            old(self)@.wf(),
        ensures
            final(self)@ == old(self)@.focus_topmost(serial),
            final(self)@.wf(),
    {
        let n: usize = self.space.elements.len();
        if n > 0 {
            let w: u64 = self.space.elements[n - 1].window;
            assert(crate::space::stacked(self@.elements, w)) by {
                assert(self@.elements[n - 1].window == w);
            }
            self.focus_window(w, serial);
        } else {
            self.active_window = None;
            self.layer_shell_on_demand_focus = None;
            self.set_keyboard_focus(None, serial);
        }
    }
}

} // verus!
