//! The toplevel list as a whole.

use vstd::prelude::*;
use crate::handlers::foreign_toplevel::data;
use crate::handlers::foreign_toplevel::data::{
    contains_id, copy_bytes, Clients, ClientsView, DataView, EventQueue, EventView, ForeignEvent,
    InstanceView, Manager, SnapshotView, ToplevelData, ToplevelSnapshot, WlrHandle,
};
use crate::handlers::foreign_toplevel::encoding::StateCodes;

verus! {

/// The version of the wlr management protocol that is offered.
pub const WLR_MANAGEMENT_VERSION: u32 = 3;

/// The toplevel list: who watches it and what they have been told.
#[derive(Debug, PartialEq, Eq)]
pub struct ForeignToplevelManagerState {
    pub codes: StateCodes,
    /// The managers that hear of new toplevels.
    pub wlr_management_instances: Vec<Manager>,
    pub toplevels: Vec<ToplevelData>,
    pub events: EventQueue,
}

/// The mathematical value of a [`ForeignToplevelManagerState`].
#[verifier::ext_equal]
pub struct ForeignView {
    pub codes: StateCodes,
    pub managers: Seq<Manager>,
    pub toplevels: Seq<DataView>,
    pub events: Seq<EventView>,
}

impl View for ForeignToplevelManagerState {
    type V = ForeignView;

    open spec fn view(&self) -> ForeignView {
        ForeignView {
            codes: self.codes,
            managers: self.wlr_management_instances@,
            toplevels: data::data_views(self.toplevels@),
            events: self.events@,
        }
    }
}

/// Whether some snapshot is of `surface`.
pub open spec fn listed(snaps: Seq<SnapshotView>, surface: u64) -> bool {
    exists|i: int| 0 <= i < snaps.len() && (#[trigger] snaps[i]).surface == surface
}

/// Whether no two snapshots are of one surface.
pub open spec fn snapshots_distinct(snaps: Seq<SnapshotView>) -> bool {
    forall|i: int, j: int|
        #![trigger snaps[i], snaps[j]]
        0 <= i < snaps.len() && 0 <= j < snaps.len() && snaps[i].surface == snaps[j].surface ==> i
            == j
}

/// Whether the clients know of the toplevel `surface`.
pub open spec fn known(toplevels: Seq<DataView>, surface: u64) -> bool {
    exists|i: int| 0 <= i < toplevels.len() && (#[trigger] toplevels[i]).surface == surface
}

/// The position of the toplevel `surface`.
pub open spec fn index_of(toplevels: Seq<DataView>, surface: u64) -> int
    recommends
        known(toplevels, surface),
{
    choose|i: int| 0 <= i < toplevels.len() && (#[trigger] toplevels[i]).surface == surface
}

/// Whether no toplevel is listed twice.
pub open spec fn toplevels_distinct(toplevels: Seq<DataView>) -> bool {
    forall|i: int, j: int|
        #![trigger toplevels[i], toplevels[j]]
        0 <= i < toplevels.len() && 0 <= j < toplevels.len() && toplevels[i].surface
            == toplevels[j].surface ==> i == j
}

/// Whether no manager is there twice.
pub open spec fn managers_distinct(managers: Seq<Manager>) -> bool {
    forall|i: int, j: int|
        #![trigger managers[i], managers[j]]
        0 <= i < managers.len() && 0 <= j < managers.len() && managers[i].id == managers[j].id
            ==> i == j
}

/// In a list without repetition the position of a toplevel is the only one that holds it.
pub proof fn lemma_index(toplevels: Seq<DataView>, i: int)
    requires
        toplevels_distinct(toplevels),
        0 <= i < toplevels.len(),
    ensures
        known(toplevels, toplevels[i].surface),
        index_of(toplevels, toplevels[i].surface) == i,
{
    let k = index_of(toplevels, toplevels[i].surface);
    assert(toplevels[k].surface == toplevels[i].surface);
}

/// The toplevels that are still there.
pub open spec fn remaining(toplevels: Seq<DataView>, snaps: Seq<SnapshotView>) -> Seq<DataView> {
    toplevels.filter(|d: DataView| listed(snaps, d.surface))
}

/// What the clients hear of the toplevels that are gone.
pub open spec fn gone_events(toplevels: Seq<DataView>, snaps: Seq<SnapshotView>) -> Seq<EventView>
    decreases toplevels.len(),
{
    if toplevels.len() == 0 {
        Seq::empty()
    } else {
        gone_events(toplevels.drop_last(), snaps) + if listed(snaps, toplevels.last().surface) {
            Seq::empty()
        } else {
            toplevels.last().close_events()
        }
    }
}

impl DataView {
    /// This toplevel with a handle for each of the managers whose client is connected.
    pub open spec fn announced_to_all(
        self,
        managers: Seq<Manager>,
        clients: ClientsView,
    ) -> DataView
        decreases managers.len(),
    {
        if managers.len() == 0 {
            self
        } else {
            let rest = self.announced_to_all(managers.drop_last(), clients);
            if clients.live.contains(managers.last().client) {
                rest.announced(managers.last().id, managers.last().client, clients)
            } else {
                rest
            }
        }
    }

    /// What the managers hear when this toplevel appears.
    pub open spec fn announce_all_events(
        self,
        managers: Seq<Manager>,
        clients: ClientsView,
    ) -> Seq<EventView>
        decreases managers.len(),
    {
        if managers.len() == 0 {
            Seq::empty()
        } else {
            let rest = self.announce_all_events(managers.drop_last(), clients);
            if clients.live.contains(managers.last().client) {
                rest + self.announce_events(managers.last().id, managers.last().client, clients)
            } else {
                rest
            }
        }
    }

    /// Whether the entry in the ext list and every handle of this toplevel are its own, and no
    /// handle is there twice.
    pub open spec fn owns_handles(self) -> bool {
        &&& self.ext_handle == Some(self.surface)
        &&& forall|k: int|
            0 <= k < self.instances.len() ==> (#[trigger] self.instances[k]).handle.surface
                == self.surface
        &&& forall|k: int, l: int|
            #![trigger self.instances[k], self.instances[l]]
            0 <= k < self.instances.len() && 0 <= l < self.instances.len()
                && self.instances[k].handle == self.instances[l].handle ==> k == l
    }

    /// This toplevel without the handle `handle`.
    pub open spec fn without_instance(self, handle: WlrHandle) -> DataView {
        DataView { instances: self.instances.filter(|i: InstanceView| i.handle != handle), ..self }
    }

    /// Whether `handle` is a handle of this toplevel.
    pub open spec fn has_instance(self, handle: WlrHandle) -> bool {
        exists|i: int| 0 <= i < self.instances.len() && (#[trigger] self.instances[i]).handle
            == handle
    }
}

impl ForeignView {
    /// No toplevel, no manager and no handle is there twice, every toplevel is in the ext list under
    /// its own surface, every handle is one of the toplevel it hangs on, and the state codes are
    /// those of the protocol, all in one byte order.
    pub open spec fn wf(self) -> bool {
        &&& toplevels_distinct(self.toplevels)
        &&& forall|i: int|
            0 <= i < self.toplevels.len() ==> (#[trigger] self.toplevels[i]).owns_handles()
        &&& managers_distinct(self.managers)
        &&& self.codes.wf()
    }

    /// Whether no manager and no handle has the number `manager`.
    pub open spec fn is_fresh(self, manager: u64) -> bool {
        &&& forall|k: int|
            0 <= k < self.managers.len() ==> (#[trigger] self.managers[k]).id != manager
        &&& forall|i: int, k: int|
            #![trigger self.toplevels[i].instances[k]]
            0 <= i < self.toplevels.len() && 0 <= k < self.toplevels[i].instances.len()
                ==> self.toplevels[i].instances[k].handle.manager != manager
    }

    /// Nobody watches, nothing is listed, nothing is to be told.
    pub open spec fn is_empty(self) -> bool {
        self.managers.len() == 0 && self.toplevels.len() == 0 && self.events.len() == 0
    }

    /// The toplevels without a snapshot closed.
    pub open spec fn close_gone(self, snaps: Seq<SnapshotView>) -> ForeignView {
        ForeignView {
            toplevels: remaining(self.toplevels, snaps),
            events: self.events + gone_events(self.toplevels, snaps),
            ..self
        }
    }

    /// The toplevel of `snap` announced, or brought up to date.
    pub open spec fn refresh_one(self, snap: SnapshotView, clients: ClientsView) -> ForeignView {
        if known(self.toplevels, snap.surface) {
            let i = index_of(self.toplevels, snap.surface);
            ForeignView {
                toplevels: self.toplevels.update(i, self.toplevels[i].updated(snap, clients)),
                events: self.events + self.toplevels[i].update_events(snap, clients),
                ..self
            }
        } else {
            ForeignView {
                toplevels: self.toplevels.push(
                    snap.unannounced().announced_to_all(self.managers, clients),
                ),
                events: self.events + seq![
                    EventView::ExtNew {
                        surface: snap.surface,
                        title: snap.title,
                        app_id: snap.app_id,
                    },
                ] + snap.unannounced().announce_all_events(self.managers, clients),
                ..self
            }
        }
    }

    /// The toplevels of `snaps` announced or brought up to date, one after the other.
    pub open spec fn refresh_all(self, snaps: Seq<SnapshotView>, clients: ClientsView) -> ForeignView
        decreases snaps.len(),
    {
        if snaps.len() == 0 {
            self
        } else {
            self.refresh_all(snaps.drop_last(), clients).refresh_one(snaps.last(), clients)
        }
    }

    /// The list brought up to date with `snaps`.
    pub open spec fn apply(self, snaps: Seq<SnapshotView>, clients: ClientsView) -> ForeignView {
        self.close_gone(snaps).refresh_all(snaps, clients)
    }

    /// The first toplevel that has the handle `handle`.
    pub open spec fn handle_owner(toplevels: Seq<DataView>, handle: WlrHandle) -> Option<u64>
        decreases toplevels.len(),
    {
        if toplevels.len() == 0 {
            None
        } else if toplevels[0].has_instance(handle) {
            Some(toplevels[0].surface)
        } else {
            Self::handle_owner(toplevels.drop_first(), handle)
        }
    }

    pub open spec fn remove_wlr_instance(self, handle: WlrHandle) -> ForeignView {
        ForeignView {
            toplevels: self.toplevels.map_values(|d: DataView| d.without_instance(handle)),
            ..self
        }
    }

    /// The handle `handle` taken back: its toplevel does not have it, and nothing is to be told of
    /// it.
    pub open spec fn retract(self, handle: WlrHandle) -> ForeignView {
        ForeignView {
            events: self.events.filter(|e: EventView| !e.concerns(handle)),
            ..self.remove_wlr_instance(handle)
        }
    }

    /// What a new manager `manager` of `client` hears of the toplevels there are.
    pub open spec fn bind_events(
        toplevels: Seq<DataView>,
        manager: u64,
        client: u64,
        clients: ClientsView,
    ) -> Seq<EventView>
        decreases toplevels.len(),
    {
        if toplevels.len() == 0 {
            Seq::empty()
        } else {
            Self::bind_events(toplevels.drop_last(), manager, client, clients)
                + toplevels.last().announce_events(manager, client, clients)
        }
    }

    pub open spec fn bind(self, manager: u64, client: u64, clients: ClientsView) -> ForeignView {
        ForeignView {
            managers: self.managers.push(Manager { id: manager, client }),
            toplevels: self.toplevels.map_values(
                |d: DataView| d.announced(manager, client, clients),
            ),
            events: self.events + Self::bind_events(self.toplevels, manager, client, clients),
            ..self
        }
    }

    pub open spec fn manager_destroyed(self, manager: u64) -> ForeignView {
        ForeignView { managers: self.managers.filter(|m: Manager| m.id != manager), ..self }
    }

    pub open spec fn stop(self, manager: u64) -> ForeignView {
        ForeignView {
            events: self.events.push(EventView::WlrFinished { manager }),
            ..self.manager_destroyed(manager)
        }
    }
}

/// Whether some snapshot is of `surface`.
fn is_listed(snaps: &Vec<ToplevelSnapshot>, surface: u64) -> (r: bool)
    ensures
        r == listed(data::snapshot_views(snaps@), surface),
{
    let ghost views = data::snapshot_views(snaps@);
    let n: usize = snaps.len();
    let mut i: usize = 0;
    while i < n
        invariant
            n == snaps@.len(),
            i <= n,
            views == data::snapshot_views(snaps@),
            forall|j: int| 0 <= j < i ==> (#[trigger] views[j]).surface != surface,
        decreases n - i,
    {
        assert(views[i as int] == snaps@[i as int]@);
        if snaps[i].surface == surface {
            return true;
        }
        i = i + 1;
    }
    false
}

impl ForeignToplevelManagerState {
    /// An empty list that nobody watches.
    pub fn new() -> (r: Self)
        ensures
            r@.wf(),
            r@.is_empty(),
    {
        ForeignToplevelManagerState {
            codes: StateCodes::native(),
            wlr_management_instances: Vec::new(),
            toplevels: Vec::new(),
            events: EventQueue::new(),
        }
    }

    /// Closes the toplevels that have no snapshot.
    fn close_gone(&mut self, snaps: &Vec<ToplevelSnapshot>)
        requires
            old(self)@.wf(),
        ensures
            final(self)@ == old(self)@.close_gone(
                data::snapshot_views(snaps@),
            ),
            final(self)@.wf(),
    {
        let ghost sv = data::snapshot_views(snaps@);
        let ghost before = self@;
        let ghost pred = |d: DataView| listed(sv, d.surface);
        let n: usize = self.toplevels.len();
        let mut seen: usize = 0;
        let mut i: usize = 0;
        proof {
            reveal(Seq::filter);
            assert(remaining(before.toplevels.take(0), sv) =~= Seq::empty());
            assert(before.toplevels.skip(0) =~= before.toplevels);
            assert(self@.toplevels =~= remaining(before.toplevels.take(0), sv)
                + before.toplevels.skip(0));
            assert(self@.events =~= before.events + gone_events(before.toplevels.take(0), sv));
        }
        while seen < n
            invariant
                sv == data::snapshot_views(snaps@),
                pred == (|d: DataView| listed(sv, d.surface)),
                n == before.toplevels.len(),
                seen <= n,
                i == remaining(before.toplevels.take(seen as int), sv).len(),
                self@.codes == before.codes,
                self@.managers == before.managers,
                self@.toplevels == remaining(before.toplevels.take(seen as int), sv)
                    + before.toplevels.skip(seen as int),
                self@.events == before.events + gone_events(
                    before.toplevels.take(seen as int),
                    sv,
                ),
            decreases n - seen,
        {
            let ghost entry = self@;
            let ghost d = before.toplevels[seen as int];
            proof {
                let ds = before.toplevels.take(seen + 1);
                assert(ds.drop_last() =~= before.toplevels.take(seen as int));
                assert(ds.last() == d);
                reveal(Seq::filter);
                assert(self@.toplevels[i as int] == d);
                assert(self@.toplevels.len() == self.toplevels@.len());
                assert(self.toplevels@[i as int]@ == d);
            }
            if is_listed(snaps, self.toplevels[i].surface) {
                proof {
                    assert(remaining(before.toplevels.take(seen + 1), sv) =~= remaining(
                        before.toplevels.take(seen as int),
                        sv,
                    ).push(d));
                    assert(self@.toplevels =~= remaining(before.toplevels.take(seen + 1), sv)
                        + before.toplevels.skip(seen + 1));
                    assert(self@.events =~= before.events + gone_events(
                        before.toplevels.take(seen + 1),
                        sv,
                    ));
                }
                i = i + 1;
            } else {
                let gone = self.toplevels.remove(i);
                gone.close(&mut self.events);
                proof {
                    assert(remaining(before.toplevels.take(seen + 1), sv) =~= remaining(
                        before.toplevels.take(seen as int),
                        sv,
                    ));
                    assert(self@.toplevels =~= entry.toplevels.remove(i as int));
                    assert(self@.toplevels =~= remaining(before.toplevels.take(seen + 1), sv)
                        + before.toplevels.skip(seen + 1));
                    assert(self@.events =~= before.events + gone_events(
                        before.toplevels.take(seen + 1),
                        sv,
                    ));
                }
            }
            seen = seen + 1;
        }
        proof {
            assert(before.toplevels.take(n as int) =~= before.toplevels);
            assert(self@.toplevels =~= remaining(before.toplevels, sv));
            lemma_remaining(before.toplevels, sv);
        }
    }

    /// The position of the toplevel `surface`, if the clients know of it.
    fn position(&self, surface: u64) -> (r: Option<usize>)
        requires
            self@.wf(),
        ensures
            r is Some <==> known(self@.toplevels, surface),
            r matches Some(i) ==> i == index_of(self@.toplevels, surface) && i
                < self@.toplevels.len() && self@.toplevels[i as int].surface == surface,
    {
        let n: usize = self.toplevels.len();
        let mut i: usize = 0;
        while i < n
            invariant
                self@.wf(),
                n == self@.toplevels.len(),
                i <= n,
                forall|j: int| 0 <= j < i ==> (#[trigger] self@.toplevels[j]).surface != surface,
            decreases n - i,
        {
            assert(self@.toplevels[i as int] == self.toplevels@[i as int]@);
            if self.toplevels[i].surface == surface {
                proof {
                    lemma_index(self@.toplevels, i as int);
                }
                return Some(i);
            }
            i = i + 1;
        }
        None
    }

    /// Announces the toplevel of `snap`.
    fn announce(&mut self, snap: &ToplevelSnapshot, clients: &Clients)
        requires
            old(self)@.wf(),
            !known(old(self)@.toplevels, snap.surface),
        ensures
            final(self)@ == old(self)@.refresh_one(snap@, clients@),
    {
        let ghost before = self@;
        let ghost fresh = snap@.unannounced();
        let mut data = ToplevelData {
            surface: snap.surface,
            title: snap.title.clone(),
            app_id: snap.app_id.clone(),
            states: copy_bytes(&snap.states),
            output: snap.output,
            wlr_management_instances: Vec::new(),
            ext_handle: Some(snap.surface),
        };
        self.events.push(
            ForeignEvent::ExtNew {
                surface: snap.surface,
                title: snap.title.clone(),
                app_id: snap.app_id.clone(),
            },
        );
        let ghost listing = self@.events;
        let n: usize = self.wlr_management_instances.len();
        let mut i: usize = 0;
        proof {
            assert(data@ =~= fresh);
            assert(before.managers.take(0) =~= Seq::empty());
            assert(listing + fresh.announce_all_events(before.managers.take(0), clients@)
                =~= listing);
        }
        while i < n
            invariant
                n == before.managers.len(),
                i <= n,
                fresh == snap@.unannounced(),
                data@ == fresh.announced_to_all(before.managers.take(i as int), clients@),
                self@.codes == before.codes,
                self@.managers == before.managers,
                self@.toplevels == before.toplevels,
                self@.events == listing + fresh.announce_all_events(
                    before.managers.take(i as int),
                    clients@,
                ),
            decreases n - i,
        {
            let manager = self.wlr_management_instances[i];
            let ghost told = data@;
            proof {
                assert(before.managers.take(i + 1).drop_last() =~= before.managers.take(i as int));
                assert(before.managers.take(i + 1).last() == manager);
                lemma_announced_keeps(fresh, before.managers.take(i as int), clients@);
            }
            if contains_id(&clients.live, manager.client) {
                data.add_wlr_instance(manager.id, manager.client, clients, &mut self.events);
                proof {
                    assert(self@.events =~= listing + fresh.announce_all_events(
                        before.managers.take(i + 1),
                        clients@,
                    ));
                }
            }
            i = i + 1;
        }
        self.toplevels.push(data);
        proof {
            assert(before.managers.take(n as int) =~= before.managers);
            assert(self@.toplevels =~= before.refresh_one(snap@, clients@).toplevels);
            assert(self@.events =~= before.refresh_one(snap@, clients@).events);
        }
    }

    /// Announces the toplevel of `snap`, or brings it up to date.
    fn refresh_one(&mut self, snap: &ToplevelSnapshot, clients: &Clients)
        requires
            old(self)@.wf(),
        ensures
            final(self)@ == old(self)@.refresh_one(snap@, clients@),
            final(self)@.wf(),
    {
        let ghost before = self@;
        match self.position(snap.surface) {
            Some(i) => {
                let data = self.toplevels.remove(i);
                assert(data@ == before.toplevels[i as int]);
                let data = data.update(snap, clients, &mut self.events);
                self.toplevels.insert(i, data);
                proof {
                    assert(self@.toplevels =~= before.refresh_one(snap@, clients@).toplevels);
                }
            },
            None => {
                self.announce(snap, clients);
            },
        }
        proof {
            lemma_refresh_one(before, snap@, clients@);
        }
    }

    /// Brings the list up to date with `snaps`: closes the toplevels that are gone, then announces
    /// the new ones and tells what changed about the others, in the order of `snaps`.
    pub fn apply(&mut self, snaps: &Vec<ToplevelSnapshot>, clients: &Clients)
        requires
            old(self)@.wf(),
        ensures
            final(self)@ == old(self)@.apply(
                data::snapshot_views(snaps@),
                clients@,
            ),
            final(self)@.wf(),
    {
        let ghost sv = data::snapshot_views(snaps@);
        self.close_gone(snaps);
        let ghost closed = self@;
        let n: usize = snaps.len();
        let mut i: usize = 0;
        assert(sv.take(0) =~= Seq::empty());
        while i < n
            invariant
                sv == data::snapshot_views(snaps@),
                n == sv.len(),
                i <= n,
                self@.wf(),
                self@ == closed.refresh_all(sv.take(i as int), clients@),
            decreases n - i,
        {
            proof {
                assert(sv.take(i + 1).drop_last() =~= sv.take(i as int));
                assert(sv.take(i + 1).last() == snaps@[i as int]@);
            }
            self.refresh_one(&snaps[i], clients);
            i = i + 1;
        }
        assert(sv.take(n as int) =~= sv);
    }

    /// The toplevel that the handle `handle` stands for, if it is still listed.
    pub fn surface_for_wlr_handle(&self, handle: WlrHandle) -> (r: Option<u64>)
        ensures
            r == ForeignView::handle_owner(self@.toplevels, handle),
    {
        let n: usize = self.toplevels.len();
        let mut i: usize = 0;
        assert(self@.toplevels.skip(0) =~= self@.toplevels);
        while i < n
            invariant
                n == self@.toplevels.len(),
                i <= n,
                ForeignView::handle_owner(self@.toplevels.skip(i as int), handle)
                    == ForeignView::handle_owner(self@.toplevels, handle),
            decreases n - i,
        {
            proof {
                assert(self@.toplevels.skip(i as int)[0] == self.toplevels@[i as int]@);
                assert(self@.toplevels.skip(i as int).drop_first() =~= self@.toplevels.skip(i + 1));
            }
            if self.toplevels[i].has_instance(handle) {
                return Some(self.toplevels[i].surface);
            }
            i = i + 1;
        }
        None
    }

    /// The handle `handle` is gone.
    pub fn remove_wlr_instance(&mut self, handle: WlrHandle)
        requires
            old(self)@.wf(),
        ensures
            final(self)@ == old(self)@.remove_wlr_instance(handle),
            final(self)@.wf(),
    {
        let ghost before = self@;
        let n: usize = self.toplevels.len();
        let mut i: usize = 0;
        while i < n
            invariant
                n == before.toplevels.len(),
                i <= n,
                self@.codes == before.codes,
                self@.managers == before.managers,
                self@.events == before.events,
                self@.toplevels.len() == n,
                forall|j: int|
                    0 <= j < i ==> #[trigger] self@.toplevels[j]
                        == before.toplevels[j].without_instance(handle),
                forall|j: int|
                    i <= j < n ==> #[trigger] self@.toplevels[j] == before.toplevels[j],
            decreases n - i,
        {
            let ghost entry = self@;
            let data = self.toplevels.remove(i);
            assert(data@ == entry.toplevels[i as int]);
            let data = data.without_instance(handle);
            self.toplevels.insert(i, data);
            proof {
                assert(self@.toplevels =~= entry.toplevels.update(i as int, data@));
            }
            i = i + 1;
        }
        proof {
            assert(self@.toplevels =~= before.remove_wlr_instance(handle).toplevels);
            assert forall|j: int| 0 <= j < n implies (
            #[trigger] self@.toplevels[j]).owns_handles() by {
                lemma_without_instance(before.toplevels[j], handle);
            }
        }
    }

    /// The handle `handle` could not be created: its toplevel is without it, and what was to be
    /// told of it is not told.
    pub fn retract(&mut self, handle: WlrHandle)
        requires
            old(self)@.wf(),
        ensures
            final(self)@ == old(self)@.retract(handle),
            final(self)@.wf(),
    {
        self.remove_wlr_instance(handle);
        self.events.forget(handle);
    }

    /// The client `client` bound the manager `manager`: it hears of all toplevels there are, and
    /// of new ones from now on.
    pub fn bind(&mut self, manager: u64, client: u64, clients: &Clients)
        requires
            old(self)@.wf(),
            old(self)@.is_fresh(manager),
        ensures
            final(self)@ == old(self)@.bind(manager, client, clients@),
            final(self)@.wf(),
    {
        let ghost before = self@;
        let n: usize = self.toplevels.len();
        let mut i: usize = 0;
        proof {
            assert(before.events + ForeignView::bind_events(
                before.toplevels.take(0),
                manager,
                client,
                clients@,
            ) =~= before.events);
        }
        while i < n
            invariant
                n == before.toplevels.len(),
                i <= n,
                self@.codes == before.codes,
                self@.managers == before.managers,
                self@.events == before.events + ForeignView::bind_events(
                    before.toplevels.take(i as int),
                    manager,
                    client,
                    clients@,
                ),
                self@.toplevels.len() == n,
                forall|j: int|
                    0 <= j < i ==> #[trigger] self@.toplevels[j] == before.toplevels[j].announced(
                        manager,
                        client,
                        clients@,
                    ),
                forall|j: int|
                    i <= j < n ==> #[trigger] self@.toplevels[j] == before.toplevels[j],
            decreases n - i,
        {
            let ghost entry = self@;
            let mut data = self.toplevels.remove(i);
            assert(data@ == entry.toplevels[i as int]);
            data.add_wlr_instance(manager, client, clients, &mut self.events);
            self.toplevels.insert(i, data);
            proof {
                let ds = before.toplevels.take(i + 1);
                assert(ds.drop_last() =~= before.toplevels.take(i as int));
                assert(ds.last() == entry.toplevels[i as int]);
                assert(self@.toplevels =~= entry.toplevels.update(i as int, data@));
                assert(self@.events =~= before.events + ForeignView::bind_events(
                    ds,
                    manager,
                    client,
                    clients@,
                ));
            }
            i = i + 1;
        }
        self.wlr_management_instances.push(Manager { id: manager, client });
        proof {
            assert(before.toplevels.take(n as int) =~= before.toplevels);
            assert(self@.toplevels =~= before.bind(manager, client, clients@).toplevels);
            lemma_bind_wf(before, manager, client, clients@);
        }
    }

    /// The manager `manager` is gone.
    pub fn manager_destroyed(&mut self, manager: u64)
        requires
            old(self)@.wf(),
        ensures
            final(self)@ == old(self)@.manager_destroyed(manager),
            final(self)@.wf(),
    {
        let ghost before = self@;
        let ghost pred = |m: Manager| m.id != manager;
        let mut left: Vec<Manager> = Vec::new();
        let n: usize = self.wlr_management_instances.len();
        let mut i: usize = 0;
        proof {
            reveal(Seq::filter);
            assert(before.managers.take(0).filter(pred) =~= Seq::empty());
        }
        while i < n
            invariant
                self@ == before,
                n == before.managers.len(),
                i <= n,
                pred == (|m: Manager| m.id != manager),
                left@ == before.managers.take(i as int).filter(pred),
            decreases n - i,
        {
            let m = self.wlr_management_instances[i];
            proof {
                let ms = before.managers.take(i + 1);
                assert(ms.drop_last() =~= before.managers.take(i as int));
                assert(ms.last() == m);
                reveal(Seq::filter);
            }
            if m.id != manager {
                left.push(m);
            }
            i = i + 1;
        }
        self.wlr_management_instances = left;
        proof {
            assert(before.managers.take(n as int) =~= before.managers);
            lemma_managers_left(before.managers, manager);
        }
    }

    /// The client of the manager `manager` wants to hear no more of new toplevels. The handles it
    /// has stay.
    pub fn stop(&mut self, manager: u64)
        requires
            old(self)@.wf(),
        ensures
            final(self)@ == old(self)@.stop(manager),
            final(self)@.wf(),
    {
        self.events.push(ForeignEvent::WlrFinished { manager });
        self.manager_destroyed(manager);
    }
}

impl ToplevelData {
    /// Whether `handle` is a handle of this toplevel.
    fn has_instance(&self, handle: WlrHandle) -> (r: bool)
        ensures
            r == self@.has_instance(handle),
    {
        let n: usize = self.wlr_management_instances.len();
        let mut i: usize = 0;
        while i < n
            invariant
                n == self@.instances.len(),
                i <= n,
                forall|j: int| 0 <= j < i ==> (#[trigger] self@.instances[j]).handle != handle,
            decreases n - i,
        {
            assert(self@.instances[i as int] == self.wlr_management_instances@[i as int]@);
            if self.wlr_management_instances[i].handle == handle {
                return true;
            }
            i = i + 1;
        }
        false
    }

    /// This toplevel without the handle `handle`.
    fn without_instance(self, handle: WlrHandle) -> (r: ToplevelData)
        ensures
            r@ == self@.without_instance(handle),
    {
        let ghost before = self@;
        let ghost pred = |i: InstanceView| i.handle != handle;
        let mut data = self;
        let n: usize = data.wlr_management_instances.len();
        let mut seen: usize = 0;
        let mut i: usize = 0;
        proof {
            reveal(Seq::filter);
            assert(before.instances.take(0).filter(pred) =~= Seq::empty());
            assert(data@.instances =~= before.instances.take(0).filter(pred)
                + before.instances.skip(0));
        }
        while seen < n
            invariant
                pred == (|i: InstanceView| i.handle != handle),
                n == before.instances.len(),
                seen <= n,
                i == before.instances.take(seen as int).filter(pred).len(),
                data@ == (DataView { instances: data@.instances, ..before }),
                data@.instances == before.instances.take(seen as int).filter(pred)
                    + before.instances.skip(seen as int),
            decreases n - seen,
        {
            let ghost entry = data@;
            let ghost d = before.instances[seen as int];
            proof {
                let ds = before.instances.take(seen + 1);
                assert(ds.drop_last() =~= before.instances.take(seen as int));
                assert(ds.last() == d);
                reveal(Seq::filter);
                assert(data@.instances[i as int] == d);
                assert(data@.instances.len() == data.wlr_management_instances@.len());
                assert(data.wlr_management_instances@[i as int]@ == d);
            }
            if data.wlr_management_instances[i].handle != handle {
                proof {
                    assert(before.instances.take(seen + 1).filter(pred) =~= before.instances.take(
                        seen as int,
                    ).filter(pred).push(d));
                    assert(data@.instances =~= before.instances.take(seen + 1).filter(pred)
                        + before.instances.skip(seen + 1));
                }
                i = i + 1;
            } else {
                data.wlr_management_instances.remove(i);
                proof {
                    assert(data@.instances =~= entry.instances.remove(i as int));
                    assert(data@.instances =~= before.instances.take(seen + 1).filter(pred)
                        + before.instances.skip(seen + 1));
                }
            }
            seen = seen + 1;
        }
        proof {
            assert(before.instances.take(n as int) =~= before.instances);
            assert(data@.instances =~= before.instances.filter(pred));
        }
        data
    }
}

/// Closing toplevels lists none twice, and keeps just those with a snapshot.
pub proof fn lemma_remaining(toplevels: Seq<DataView>, snaps: Seq<SnapshotView>)
    requires
        toplevels_distinct(toplevels),
    ensures
        toplevels_distinct(remaining(toplevels, snaps)),
        forall|s: u64|
            #[trigger] known(remaining(toplevels, snaps), s) <==> known(toplevels, s) && listed(
                snaps,
                s,
            ),
        forall|i: int|
            0 <= i < remaining(toplevels, snaps).len() ==> {
                let d = #[trigger] remaining(toplevels, snaps)[i];
                known(toplevels, d.surface) && d == toplevels[index_of(toplevels, d.surface)]
            },
    decreases toplevels.len(),
{
    reveal(Seq::filter);
    let r = remaining(toplevels, snaps);
    if toplevels.len() > 0 {
        let rest = toplevels.drop_last();
        let last = toplevels.last();
        assert(forall|i: int| 0 <= i < rest.len() ==> #[trigger] rest[i] == toplevels[i]);
        assert(toplevels_distinct(rest));
        lemma_remaining(rest, snaps);
        let q = remaining(rest, snaps);
        assert forall|s: u64| known(rest, s) implies known(toplevels, s) && index_of(
            toplevels,
            s,
        ) == index_of(rest, s) by {
            let i = index_of(rest, s);
            assert(toplevels[i].surface == s);
            lemma_index(toplevels, i);
        }
        lemma_index(toplevels, toplevels.len() - 1);
        assert forall|i: int| 0 <= i < q.len() implies (#[trigger] q[i]).surface != last.surface by {
            let k = index_of(rest, q[i].surface);
            assert(toplevels[k].surface == q[i].surface);
        }
        if listed(snaps, last.surface) {
            assert(r =~= q.push(last));
        } else {
            assert(r =~= q);
        }
        assert forall|s: u64| #[trigger] known(r, s) <==> known(toplevels, s) && listed(snaps, s) by {
            if known(r, s) {
                let i = index_of(r, s);
                if i < q.len() {
                    assert(q[i].surface == s);
                    assert(known(q, s));
                }
            }
            if known(toplevels, s) && listed(snaps, s) {
                let i = index_of(toplevels, s);
                if i < rest.len() {
                    assert(rest[i].surface == s);
                    assert(known(q, s));
                    let j = index_of(q, s);
                    assert(r[j].surface == s);
                } else {
                    assert(r[r.len() - 1].surface == s);
                }
            }
        }
    }
}

/// A manager that binds under a fresh number leaves the list in order.
pub proof fn lemma_bind_wf(f: ForeignView, manager: u64, client: u64, clients: ClientsView)
    requires
        f.wf(),
        f.is_fresh(manager),
    ensures
        f.bind(manager, client, clients).wf(),
{
    let g = f.bind(manager, client, clients);
    assert forall|i: int| 0 <= i < g.toplevels.len() implies (
    #[trigger] g.toplevels[i]).owns_handles() by {
        let d = f.toplevels[i];
        let e = g.toplevels[i];
        assert(d.owns_handles());
        assert(forall|k: int|
            0 <= k < d.instances.len() ==> #[trigger] e.instances[k] == d.instances[k]);
        assert forall|k: int| 0 <= k < d.instances.len() implies (
        #[trigger] d.instances[k]).handle.manager != manager by {
            assert(f.toplevels[i].instances[k].handle.manager != manager);
        }
    }
}

/// A manager that goes leaves the others there once.
pub proof fn lemma_managers_left(managers: Seq<Manager>, manager: u64)
    requires
        managers_distinct(managers),
    ensures
        managers_distinct(managers.filter(|m: Manager| m.id != manager)),
{
    let left = managers.filter(|m: Manager| m.id != manager);
    crate::sequences::lemma_filtered(managers, |m: Manager| m.id != manager);
    assert(managers.no_duplicates());
    assert forall|i: int, j: int|
        #![trigger left[i], left[j]]
        0 <= i < left.len() && 0 <= j < left.len() && left[i].id == left[j].id implies i == j by {
        let x = managers.index_of(left[i]);
        let y = managers.index_of(left[j]);
        assert(managers[x].id == managers[y].id);
    }
}

/// Taking one handle away takes just that one away.
pub proof fn lemma_without_instance(d: DataView, handle: WlrHandle)
    ensures
        d.owns_handles() ==> d.without_instance(handle).owns_handles(),
        forall|h: WlrHandle|
            #[trigger] d.without_instance(handle).has_instance(h) <==> d.has_instance(h) && h
                != handle,
{
    let pred = |i: InstanceView| i.handle != handle;
    let rest = d.instances.filter(pred);
    crate::sequences::lemma_filtered(d.instances, pred);
    if d.owns_handles() {
        assert(d.instances.no_duplicates());
        assert forall|k: int, l: int|
            #![trigger rest[k], rest[l]]
            0 <= k < rest.len() && 0 <= l < rest.len() && rest[k].handle
                == rest[l].handle implies k == l by {
            let x = d.instances.index_of(rest[k]);
            let y = d.instances.index_of(rest[l]);
            assert(d.instances[x].handle == d.instances[y].handle);
        }
    }
    assert forall|h: WlrHandle| d.has_instance(h) && h != handle implies #[trigger]
    d.without_instance(handle).has_instance(h) by {
        let k = choose|k: int|
            0 <= k < d.instances.len() && (#[trigger] d.instances[k]).handle == h;
        assert(rest.contains(d.instances[k]));
        let j = rest.index_of(d.instances[k]);
        assert(d.without_instance(handle).instances[j].handle == h);
    }
}

/// Handles do not change what is known of a toplevel.
proof fn lemma_announced_keeps(d: DataView, managers: Seq<Manager>, clients: ClientsView)
    ensures
        d.announced_to_all(managers, clients) == (DataView {
            instances: d.announced_to_all(managers, clients).instances,
            ..d
        }),
        d.owns_handles() && d.instances.len() == 0 && managers_distinct(managers)
            ==> d.announced_to_all(managers, clients).owns_handles(),
        d.instances.len() == 0 ==> forall|k: int|
            0 <= k < d.announced_to_all(managers, clients).instances.len() ==> exists|m: int|
                0 <= m < managers.len() && (#[trigger] managers[m]).id == (
                #[trigger] d.announced_to_all(managers, clients).instances[k]).handle.manager,
    decreases managers.len(),
{
    if managers.len() > 0 {
        let rest = managers.drop_last();
        let a = d.announced_to_all(rest, clients);
        let b = d.announced_to_all(managers, clients);
        lemma_announced_keeps(d, rest, clients);
        assert(forall|m: int| 0 <= m < rest.len() ==> #[trigger] rest[m] == managers[m]);
        assert(managers[managers.len() - 1] == managers.last());
        if d.instances.len() == 0 {
            assert forall|k: int| 0 <= k < b.instances.len() implies exists|m: int|
                0 <= m < managers.len() && (#[trigger] managers[m]).id == (
                #[trigger] b.instances[k]).handle.manager by {
                if k < a.instances.len() {
                    assert(b.instances[k] == a.instances[k]);
                    let m = choose|m: int|
                        0 <= m < rest.len() && (#[trigger] rest[m]).id
                            == a.instances[k].handle.manager;
                    assert(managers[m].id == b.instances[k].handle.manager);
                }
            }
        }
        if d.owns_handles() && d.instances.len() == 0 && managers_distinct(managers) {
            assert(managers_distinct(rest));
            let last = managers.last();
            assert forall|k: int| 0 <= k < a.instances.len() implies (
            #[trigger] a.instances[k]).handle.manager != last.id by {
                let m = choose|m: int|
                    0 <= m < rest.len() && (#[trigger] rest[m]).id
                        == a.instances[k].handle.manager;
                assert(managers[m].id != managers[managers.len() - 1].id);
            }
            assert(forall|k: int|
                0 <= k < a.instances.len() ==> #[trigger] b.instances[k] == a.instances[k]);
        }
    }
}

/// Bringing one toplevel up to date lists none twice, adds at most that one, and leaves the others
/// as they were.
pub proof fn lemma_refresh_one(f: ForeignView, snap: SnapshotView, clients: ClientsView)
    requires
        f.wf(),
    ensures
        f.refresh_one(snap, clients).wf(),
        f.refresh_one(snap, clients).managers == f.managers,
        forall|s: u64|
            #[trigger] known(f.refresh_one(snap, clients).toplevels, s) <==> known(f.toplevels, s)
                || s == snap.surface,
        ({
            let t = f.refresh_one(snap, clients).toplevels;
            t[index_of(t, snap.surface)].says(snap)
        }),
        forall|s: u64|
            s != snap.surface && known(f.toplevels, s) ==> f.refresh_one(
                snap,
                clients,
            ).toplevels[index_of(f.refresh_one(snap, clients).toplevels, s)]
                == f.toplevels[#[trigger] index_of(f.toplevels, s)],
{
    let t = f.refresh_one(snap, clients).toplevels;
    lemma_announced_keeps(snap.unannounced(), f.managers, clients);
    if known(f.toplevels, snap.surface) {
        let k = index_of(f.toplevels, snap.surface);
        assert(forall|i: int| 0 <= i < t.len() ==> (#[trigger] t[i]).surface == f.toplevels[i].surface);
        assert forall|s: u64| #[trigger] known(t, s) <==> known(f.toplevels, s) || s
            == snap.surface by {
            if known(t, s) {
                let i = index_of(t, s);
                assert(f.toplevels[i].surface == s);
            }
            if known(f.toplevels, s) {
                let i = index_of(f.toplevels, s);
                assert(t[i].surface == s);
            }
        }
        assert(toplevels_distinct(t));
        lemma_index(t, k);
    } else {
        let n = f.toplevels.len() as int;
        assert(t[n].surface == snap.surface);
        assert(forall|i: int| 0 <= i < n ==> #[trigger] t[i] == f.toplevels[i]);
        assert forall|i: int| 0 <= i < n implies (#[trigger] t[i]).surface != snap.surface by {
            assert(known(f.toplevels, f.toplevels[i].surface));
        }
        assert forall|s: u64| #[trigger] known(t, s) <==> known(f.toplevels, s) || s
            == snap.surface by {
            if known(t, s) {
                let i = index_of(t, s);
                if i < n {
                    assert(f.toplevels[i].surface == s);
                }
            }
            if known(f.toplevels, s) {
                let i = index_of(f.toplevels, s);
                assert(t[i].surface == s);
            }
        }
        assert(toplevels_distinct(t));
        lemma_index(t, n);
    }
    assert forall|s: u64| s != snap.surface && known(f.toplevels, s) implies t[index_of(
        t,
        s,
    )] == f.toplevels[#[trigger] index_of(f.toplevels, s)] by {
        let i = index_of(f.toplevels, s);
        assert(t[i] == f.toplevels[i]);
        lemma_index(t, i);
    }
}

} // verus!
