//! The toplevel list follows the windows, and its requests act on them.

use vstd::prelude::*;
use crate::handlers::foreign_toplevel::data;
use crate::command::Command;
use crate::handlers::foreign_toplevel::data::{
    Clients, ClientsView, SnapshotView, ToplevelSnapshot, WlrHandle,
};
use crate::handlers::foreign_toplevel::encoding::to_state_vec;
use crate::handlers::foreign_toplevel::manager::ForeignView;
use crate::state::{State, StateView};
use crate::toplevel::WindowState;

verus! {

broadcast use vstd::std_specs::hash::group_hash_axioms;

/// A request to a wlr handle.
#[derive(Clone, Copy, Debug, PartialEq, Eq, Structural)]
pub enum HandleRequest {
    SetMaximized,
    UnsetMaximized,
    SetMinimized,
    UnsetMinimized,
    SetRectangle,
    SetFullscreen,
    UnsetFullscreen,
    Activate,
    Close,
    Destroy,
}

/// Whether `order` lists every toplevel once.
pub open spec fn is_walk(order: Seq<u64>, toplevels: Map<u64, WindowState>) -> bool {
    order.no_duplicates() && order.to_set() == toplevels.dom()
}

impl StateView {
    /// The toplevel `w` as it is now.
    pub open spec fn snapshot(self, w: u64) -> SnapshotView {
        SnapshotView {
            surface: w,
            title: self.windows[w].title@,
            app_id: self.windows[w].app_id@,
            states: self.foreign.codes.payload(
                self.toplevels[w].mode,
                self.keyboard_focus == Some(w),
            ),
            output: self.windows[w].output,
        }
    }

    /// Snapshots of those toplevels among `order` that are alive and have the focus or not, as
    /// `focused` says.
    pub open spec fn snapshots_of(self, order: Seq<u64>, focused: bool) -> Seq<SnapshotView> {
        order.filter(
            |w: u64| self.windows[w].alive && (self.keyboard_focus == Some(w)) == focused,
        ).map_values(|w: u64| self.snapshot(w))
    }

    /// Snapshots of the live toplevels among `order`, the focused one last.
    pub open spec fn snapshots(self, order: Seq<u64>) -> Seq<SnapshotView> {
        self.snapshots_of(order, false) + self.snapshots_of(order, true)
    }

    /// The toplevel list brought up to date with the windows, walked in `order`.
    pub open spec fn foreign_toplevel_refresh(
        self,
        order: Seq<u64>,
        clients: ClientsView,
    ) -> StateView {
        StateView { foreign: self.foreign.apply(self.snapshots(order), clients), ..self }
    }

    /// `surface` focused, if it is a toplevel and no transient.
    pub open spec fn foreign_activate(self, surface: u64, serial: u32) -> StateView {
        if self.toplevels.contains_key(surface) && !self.is_transient(surface) {
            self.focus_window(surface, serial)
        } else {
            self
        }
    }

    pub open spec fn foreign_close(self, surface: u64) -> StateView {
        if self.toplevels.contains_key(surface) {
            self.emit(Command::SendClose { window: surface })
        } else {
            self
        }
    }

    /// What a request to the handle `handle` does. Only activating and closing do anything: the
    /// rest of a toplevel's state is the compositor's business.
    pub open spec fn handle_request(
        self,
        handle: WlrHandle,
        request: HandleRequest,
        serial: u32,
    ) -> StateView {
        match ForeignView::handle_owner(self.foreign.toplevels, handle) {
            Some(surface) => match request {
                HandleRequest::Activate => self.foreign_activate(surface, serial),
                HandleRequest::Close => self.foreign_close(surface),
                _ => self,
            },
            None => self,
        }
    }
}

impl State {
    /// The toplevel `w` as it is now.
    fn snapshot(&self, w: u64) -> (r: Option<ToplevelSnapshot>)
        requires
            self@.wf(),
            self@.toplevels.contains_key(w),
        ensures
            r is Some <==> self@.windows[w].alive,
            r matches Some(s) ==> s@ == self@.snapshot(w),
    {
        let ws: WindowState = match self.toplevels.get(&w) {
            Some(ws) => *ws,
            None => {
                return None;
            },
        };
        match self.windows.get(&w) {
            Some(win) => {
                if !win.alive {
                    return None;
                }
                let focused: bool = match self.keyboard_focus {
                    Some(f) => f == w,
                    None => false,
                };
                let snap = ToplevelSnapshot {
                    surface: w,
                    title: win.title.clone(),
                    app_id: win.app_id.clone(),
                    states: to_state_vec(&self.foreign_toplevel.codes, ws.mode, focused),
                    output: win.output,
                };
                assert(snap@ =~= self@.snapshot(w));
                Some(snap)
            },
            None => None,
        }
    }

    /// The live toplevels as they are now, in no particular order but the focused one last.
    pub fn snapshots(&self) -> (r: Vec<ToplevelSnapshot>)
        requires
            self@.wf(),
        ensures
            exists|order: Seq<u64>|
                is_walk(order, self@.toplevels) && #[trigger] self@.snapshots(order)
                    == data::snapshot_views(r@),
    {
        let mut r: Vec<ToplevelSnapshot> = Vec::new();
        let mut last: Vec<ToplevelSnapshot> = Vec::new();
        let ghost mut seen: Seq<u64> = Seq::empty();
        proof {
            lemma_snapshots_of_empty(self@, false);
            lemma_snapshots_of_empty(self@, true);
        }
        assert(data::snapshot_views(r@) =~= Seq::empty());
        for w in iter: self.toplevels.keys()
            invariant
                self@.wf(),
                iter.seq().unref().to_set() == self@.toplevels.dom(),
                iter.seq().no_duplicates(),
                seen == iter.seq().unref().take(iter.index()),
                iter.index() == iter.seq().len() ==> seen == iter.seq().unref(),
                data::snapshot_views(r@)
                    == self@.snapshots_of(seen, false),
                data::snapshot_views(last@)
                    == self@.snapshots_of(seen, true),
        {
            let ghost before = seen;
            proof {
                seen = seen.push(*w);
                assert(seen =~= iter.seq().unref().take(iter.index() + 1));
                assert(iter.seq().unref()[iter.index()] == *w);
                assert(iter.seq().unref().to_set().contains(*w));
                lemma_snapshots_of_push(self@, before, *w, false);
                lemma_snapshots_of_push(self@, before, *w, true);
            }
            if let Some(snap) = self.snapshot(*w) {
                let focused: bool = match self.keyboard_focus {
                    Some(f) => f == *w,
                    None => false,
                };
                if focused {
                    last.push(snap);
                } else {
                    r.push(snap);
                }
            }
            assert(data::snapshot_views(r@)
                =~= self@.snapshots_of(seen, false));
            assert(data::snapshot_views(last@)
                =~= self@.snapshots_of(seen, true));
        }
        r.append(&mut last);
        proof {
            assert(seen.no_duplicates());
            assert(is_walk(seen, self@.toplevels));
            assert(data::snapshot_views(r@)
                =~= self@.snapshots(seen));
        }
        r
    }

    /// Tells the clients what changed about the windows. The focused window comes last, so that the
    /// one that lost the focus is seen to lose it first.
    pub fn foreign_toplevel_refresh(&mut self, clients: &Clients)
        requires
            old(self)@.wf(),
        ensures
            exists|order: Seq<u64>|
                is_walk(order, old(self)@.toplevels) && final(self)@ == #[trigger] old(
                    self,
                )@.foreign_toplevel_refresh(order, clients@),
            final(self)@.wf(),
    {
        let snapshots = self.snapshots();
        let ghost before = self@;
        self.foreign_toplevel.apply(&snapshots, clients);
        proof {
            let order = choose|order: Seq<u64>|
                is_walk(order, before.toplevels) && #[trigger] before.snapshots(order)
                    == data::snapshot_views(snapshots@);
            assert(self@ =~= before.foreign_toplevel_refresh(order, clients@));
        }
    }

    /// A client wants the toplevel `surface` raised and focused. Transients never get the focus.
    pub fn foreign_activate(&mut self, surface: u64, serial: u32)
        requires
            old(self)@.wf(),
        ensures
            final(self)@ == old(self)@.foreign_activate(surface, serial),
            final(self)@.wf(),
    {
        if self.toplevels.contains_key(&surface) && !self.is_transient(surface) {
            self.focus_window(surface, serial);
        }
    }

    /// A client wants the toplevel `surface` closed.
    pub fn foreign_close(&mut self, surface: u64)
        requires
            old(self)@.wf(),
        ensures
            final(self)@ == old(self)@.foreign_close(surface),
            final(self)@.wf(),
    {
        if self.toplevels.contains_key(&surface) {
            self.emit(Command::SendClose { window: surface });
        }
    }

    /// A client sends `request` to its handle `handle`.
    pub fn handle_request(&mut self, handle: WlrHandle, request: HandleRequest, serial: u32)
        requires
            old(self)@.wf(),
        ensures
            final(self)@ == old(self)@.handle_request(handle, request, serial),
            final(self)@.wf(),
    {
        let surface: u64 = match self.foreign_toplevel.surface_for_wlr_handle(handle) {
            Some(surface) => surface,
            None => {
                return;
            },
        };
        match request {
            HandleRequest::Activate => self.foreign_activate(surface, serial),
            HandleRequest::Close => self.foreign_close(surface),
            HandleRequest::SetMaximized
            | HandleRequest::UnsetMaximized
            | HandleRequest::SetMinimized
            | HandleRequest::UnsetMinimized
            | HandleRequest::SetRectangle
            | HandleRequest::SetFullscreen
            | HandleRequest::UnsetFullscreen
            | HandleRequest::Destroy => {},
        }
    }
}

proof fn lemma_snapshots_of_empty(s: StateView, focused: bool)
    ensures
        s.snapshots_of(Seq::empty(), focused) == Seq::<SnapshotView>::empty(),
{
    reveal(Seq::filter);
    assert(s.snapshots_of(Seq::empty(), focused) =~= Seq::<SnapshotView>::empty());
}

/// One more toplevel gives one more snapshot, if it is alive and has the right focus.
proof fn lemma_snapshots_of_push(s: StateView, order: Seq<u64>, w: u64, focused: bool)
    ensures
        s.snapshots_of(order.push(w), focused) == if s.windows[w].alive && (s.keyboard_focus
            == Some(w)) == focused {
            s.snapshots_of(order, focused).push(s.snapshot(w))
        } else {
            s.snapshots_of(order, focused)
        },
{
    reveal(Seq::filter);
    assert(order.push(w).drop_last() =~= order);
    assert(order.push(w).last() == w);
    if s.windows[w].alive && (s.keyboard_focus == Some(w)) == focused {
        assert(s.snapshots_of(order.push(w), focused) =~= s.snapshots_of(order, focused).push(
            s.snapshot(w),
        ));
    }
}

} // verus!
