//! What holds of the toplevel list as a whole.

use vstd::prelude::*;
use crate::handlers::foreign_toplevel::manager;
use crate::handlers::foreign_toplevel::refresh;
use crate::handlers::foreign_toplevel::data::{
    ClientsView, DataView, EventView, InstanceView, Manager, SnapshotView, WlrHandle,
};
use crate::handlers::foreign_toplevel::manager::{
    lemma_index, lemma_managers_left, lemma_refresh_one, lemma_remaining, lemma_without_instance, ForeignView,
};
use crate::handlers::foreign_toplevel::refresh::HandleRequest;
use crate::sequences::lemma_filtered;
use crate::state::StateView;

verus! {

impl ForeignView {
    /// Whether the clients know of the toplevel `surface`.
    pub open spec fn knows(self, surface: u64) -> bool {
        manager::known(self.toplevels, surface)
    }

    /// What the clients were told of the toplevel `surface`.
    pub open spec fn told(self, surface: u64) -> DataView
        recommends
            self.knows(surface),
    {
        self.toplevels[manager::index_of(
            self.toplevels,
            surface,
        )]
    }

    /// Whether the clients were told what `snaps` say.
    pub open spec fn up_to_date(self, snaps: Seq<SnapshotView>) -> bool {
        forall|i: int|
            0 <= i < snaps.len() ==> self.knows((#[trigger] snaps[i]).surface) && self.told(
                snaps[i].surface,
            ).says(snaps[i])
    }
}

/// Bringing the list up to date one by one keeps it in order, adds just the toplevels of `snaps`,
/// says of them what `snaps` say, and leaves the others alone.
pub(crate) proof fn lemma_refresh_all(f: ForeignView, snaps: Seq<SnapshotView>, clients: ClientsView)
    requires
        f.wf(),
        manager::snapshots_distinct(snaps),
    ensures
        f.refresh_all(snaps, clients).wf(),
        f.refresh_all(snaps, clients).managers == f.managers,
        forall|s: u64|
            #[trigger] f.refresh_all(snaps, clients).knows(s) <==> f.knows(s)
                || manager::listed(snaps, s),
        f.refresh_all(snaps, clients).up_to_date(snaps),
        forall|s: u64|
            f.knows(s) && !manager::listed(snaps, s)
                ==> #[trigger] f.refresh_all(snaps, clients).told(s) == f.told(s),
    decreases snaps.len(),
{
    if snaps.len() > 0 {
        let rest = snaps.drop_last();
        let last = snaps.last();
        assert(forall|i: int| 0 <= i < rest.len() ==> #[trigger] rest[i] == snaps[i]);
        assert forall|i: int, j: int|
            #![trigger rest[i], rest[j]]
            0 <= i < rest.len() && 0 <= j < rest.len() && rest[i].surface
                == rest[j].surface implies i == j by {
            assert(snaps[i].surface == snaps[j].surface);
        }
        lemma_refresh_all(f, rest, clients);
        let g = f.refresh_all(rest, clients);
        let h = f.refresh_all(snaps, clients);
        assert(h == g.refresh_one(last, clients));
        lemma_refresh_one(g, last, clients);
        assert forall|s: u64|
            manager::listed(snaps, s)
                <==> manager::listed(rest, s) || s
                == last.surface by {
            if manager::listed(snaps, s) {
                let i = choose|i: int|
                    0 <= i < snaps.len() && (#[trigger] snaps[i]).surface == s;
                if i < rest.len() {
                    assert(rest[i].surface == s);
                }
            }
            if manager::listed(rest, s) {
                let i = choose|i: int| 0 <= i < rest.len() && (#[trigger] rest[i]).surface == s;
                assert(snaps[i].surface == s);
            }
            assert(snaps[snaps.len() - 1] == last);
        }
        assert forall|s: u64| #[trigger] h.knows(s) <==> f.knows(s)
            || manager::listed(snaps, s) by {
            assert(h.knows(s) <==> manager::known(
                g.refresh_one(last, clients).toplevels,
                s,
            ));
            assert(g.knows(s) <==> f.knows(s)
                || manager::listed(rest, s));
        }
        assert forall|s: u64| s != last.surface && g.knows(s) implies h.told(s) == g.told(s) by {
            assert(manager::known(g.toplevels, s));
        }
        assert forall|i: int| 0 <= i < snaps.len() implies h.knows((#[trigger] snaps[i]).surface)
            && h.told(snaps[i].surface).says(snaps[i]) by {
            if i < rest.len() {
                assert(rest[i] == snaps[i]);
                assert(snaps[i].surface != last.surface) by {
                    if snaps[i].surface == last.surface {
                        assert(snaps[snaps.len() - 1].surface == snaps[i].surface);
                    }
                }
                assert(g.told(rest[i].surface).says(rest[i]));
            } else {
                assert(h.told(last.surface).says(last));
            }
        }
        assert forall|s: u64|
            f.knows(s) && !manager::listed(
                snaps,
                s,
            ) implies #[trigger] h.told(s) == f.told(s) by {
            assert(g.told(s) == f.told(s));
        }
    }
}

/// After a refresh the list holds exactly the toplevels there are, and the clients have been told
/// how each of them is.
pub proof fn law_list_mirrors_windows(
    f: ForeignView,
    snaps: Seq<SnapshotView>,
    clients: ClientsView,
)
    requires
        f.wf(),
        manager::snapshots_distinct(snaps),
    ensures
        f.apply(snaps, clients).wf(),
        forall|s: u64|
            #[trigger] f.apply(snaps, clients).knows(s)
                <==> manager::listed(snaps, s),
        f.apply(snaps, clients).up_to_date(snaps),
{
    lemma_remaining(f.toplevels, snaps);
    let c = f.close_gone(snaps);
    assert(c.wf());
    lemma_refresh_all(c, snaps, clients);
    assert forall|s: u64| #[trigger]
        f.apply(snaps, clients).knows(s) <==> manager::listed(
            snaps,
            s,
        ) by {
        assert(c.knows(s) ==> manager::listed(snaps, s)) by {
            assert(manager::known(c.toplevels, s)
                <==> c.knows(s));
        }
    }
}

/// Where the clients know everything, going over it again says nothing.
proof fn lemma_refresh_all_quiet(f: ForeignView, snaps: Seq<SnapshotView>, clients: ClientsView)
    requires
        f.wf(),
        manager::snapshots_distinct(snaps),
        f.up_to_date(snaps),
    ensures
        f.refresh_all(snaps, clients).events == f.events,
    decreases snaps.len(),
{
    if snaps.len() > 0 {
        let rest = snaps.drop_last();
        let last = snaps.last();
        assert(forall|i: int| 0 <= i < rest.len() ==> #[trigger] rest[i] == snaps[i]);
        lemma_refresh_all_quiet(f, rest, clients);
        lemma_refresh_all(f, rest, clients);
        let g = f.refresh_all(rest, clients);
        assert(snaps[snaps.len() - 1] == last);
        assert(!manager::listed(rest, last.surface)) by {
            if manager::listed(rest, last.surface) {
                let i = choose|i: int|
                    0 <= i < rest.len() && (#[trigger] rest[i]).surface == last.surface;
                assert(snaps[i].surface == snaps[snaps.len() - 1].surface);
            }
        }
        assert(g.knows(last.surface));
        assert(g.told(last.surface) == f.told(last.surface));
        assert(g.refresh_one(last, clients).events =~= g.events);
    }
}

/// A toplevel that has a snapshot is not closed.
proof fn lemma_nothing_gone(toplevels: Seq<DataView>, snaps: Seq<SnapshotView>)
    requires
        forall|i: int|
            0 <= i < toplevels.len() ==> manager::listed(
                snaps,
                (#[trigger] toplevels[i]).surface,
            ),
    ensures
        manager::remaining(toplevels, snaps) == toplevels,
        manager::gone_events(toplevels, snaps) == Seq::<
            EventView,
        >::empty(),
    decreases toplevels.len(),
{
    reveal(Seq::filter);
    if toplevels.len() > 0 {
        let rest = toplevels.drop_last();
        assert(forall|i: int| 0 <= i < rest.len() ==> #[trigger] rest[i] == toplevels[i]);
        lemma_nothing_gone(rest, snaps);
        assert(toplevels[toplevels.len() - 1] == toplevels.last());
        assert(toplevels =~= rest.push(toplevels.last()));
    } else {
        assert(manager::remaining(toplevels, snaps)
            =~= toplevels);
    }
}

/// A refresh after which nothing changed says nothing.
pub proof fn law_no_news_no_events(
    f: ForeignView,
    snaps: Seq<SnapshotView>,
    clients: ClientsView,
    later_clients: ClientsView,
)
    requires
        f.wf(),
        manager::snapshots_distinct(snaps),
    ensures
        f.apply(snaps, clients).apply(snaps, later_clients).events == f.apply(
            snaps,
            clients,
        ).events,
{
    law_list_mirrors_windows(f, snaps, clients);
    let g = f.apply(snaps, clients);
    assert forall|i: int| 0 <= i < g.toplevels.len() implies
        manager::listed(
        snaps,
        (#[trigger] g.toplevels[i]).surface,
    ) by {
        lemma_index(g.toplevels, i);
        assert(g.knows(g.toplevels[i].surface));
    }
    lemma_nothing_gone(g.toplevels, snaps);
    let c = g.close_gone(snaps);
    assert(c.events =~= g.events);
    assert(c =~= g);
    lemma_refresh_all_quiet(c, snaps, later_clients);
}

/// Whether an event says that a toplevel is gone.
pub open spec fn says_closed(e: EventView) -> bool {
    e is ExtClosed || e is WlrClosed
}

/// Announcing a toplevel and changing it says of none that it is gone.
proof fn lemma_refresh_one_closes_none(f: ForeignView, snap: SnapshotView, clients: ClientsView)
    ensures
        f.events.is_prefix_of(f.refresh_one(snap, clients).events),
        forall|k: int|
            f.events.len() <= k < f.refresh_one(snap, clients).events.len() ==> !says_closed(
                #[trigger] f.refresh_one(snap, clients).events[k],
            ),
{
    let g = f.refresh_one(snap, clients);
    if f.knows(snap.surface) {
        let d = f.told(snap.surface);
        lemma_wlr_update_closes_none(d, d.instances.len() as int, snap, clients);
        assert forall|k: int| f.events.len() <= k < g.events.len() implies !says_closed(
            #[trigger] g.events[k],
        ) by {
            let e = d.update_events(snap, clients);
            assert(g.events[k] == e[k - f.events.len()]);
        }
    } else {
        lemma_announce_all_closes_none(snap.unannounced(), f.managers, clients);
        assert forall|k: int| f.events.len() <= k < g.events.len() implies !says_closed(
            #[trigger] g.events[k],
        ) by {
            let e = snap.unannounced().announce_all_events(f.managers, clients);
            if k > f.events.len() {
                assert(g.events[k] == e[k - f.events.len() - 1]);
            }
        }
    }
}

proof fn lemma_wlr_update_closes_none(
    d: DataView,
    n: int,
    snap: SnapshotView,
    clients: ClientsView,
)
    ensures
        forall|k: int|
            0 <= k < d.wlr_update_events(n, snap, clients).len() ==> !says_closed(
                #[trigger] d.wlr_update_events(n, snap, clients)[k],
            ),
    decreases n,
{
    if n > 0 {
        lemma_wlr_update_closes_none(d, n - 1, snap, clients);
        let first = d.wlr_update_events(n - 1, snap, clients);
        let more = d.instance_update_events(d.instances[n - 1], snap, clients);
        let all = d.wlr_update_events(n, snap, clients);
        assert(all == first + more);
        assert forall|k: int| 0 <= k < more.len() implies !says_closed(#[trigger] more[k]) by {}
        assert forall|k: int| 0 <= k < all.len() implies !says_closed(#[trigger] all[k]) by {
            if k < first.len() {
                assert(all[k] == first[k]);
            } else {
                assert(all[k] == more[k - first.len()]);
            }
        }
    }
}

proof fn lemma_announce_all_closes_none(d: DataView, managers: Seq<Manager>, clients: ClientsView)
    ensures
        forall|k: int|
            0 <= k < d.announce_all_events(managers, clients).len() ==> !says_closed(
                #[trigger] d.announce_all_events(managers, clients)[k],
            ),
    decreases managers.len(),
{
    if managers.len() > 0 {
        lemma_announce_all_closes_none(d, managers.drop_last(), clients);
        let m = managers.last();
        let first = d.announce_all_events(managers.drop_last(), clients);
        let more = d.announce_events(m.id, m.client, clients);
        let all = d.announce_all_events(managers, clients);
        assert forall|k: int| 0 <= k < more.len() implies !says_closed(#[trigger] more[k]) by {}
        assert forall|k: int| 0 <= k < all.len() implies !says_closed(#[trigger] all[k]) by {
            if k < first.len() {
                assert(all[k] == first[k]);
            } else {
                assert(all == first + more);
                assert(all[k] == more[k - first.len()]);
            }
        }
    }
}

pub(crate) proof fn lemma_refresh_all_closes_none(
    f: ForeignView,
    snaps: Seq<SnapshotView>,
    clients: ClientsView,
)
    ensures
        f.events.is_prefix_of(f.refresh_all(snaps, clients).events),
        forall|k: int|
            f.events.len() <= k < f.refresh_all(snaps, clients).events.len() ==> !says_closed(
                #[trigger] f.refresh_all(snaps, clients).events[k],
            ),
    decreases snaps.len(),
{
    if snaps.len() > 0 {
        let g = f.refresh_all(snaps.drop_last(), clients);
        let h = f.refresh_all(snaps, clients);
        lemma_refresh_all_closes_none(f, snaps.drop_last(), clients);
        lemma_refresh_one_closes_none(g, snaps.last(), clients);
        assert forall|k: int| f.events.len() <= k < h.events.len() implies !says_closed(
            #[trigger] h.events[k],
        ) by {
            if k < g.events.len() {
                assert(h.events[k] == g.events[k]);
            }
        }
        assert(f.events =~= h.events.take(f.events.len() as int));
    } else {
        assert(f.events =~= f.events.take(f.events.len() as int));
    }
}

/// Whether the toplevel at position `i` is gone and `e` tells one of its watchers so.
pub open spec fn tells_gone(
    f: ForeignView,
    snaps: Seq<SnapshotView>,
    i: int,
    e: EventView,
) -> bool {
    &&& 0 <= i < f.toplevels.len()
    &&& !manager::listed(snaps, f.toplevels[i].surface)
    &&& f.toplevels[i].close_events().contains(e)
}

proof fn lemma_gone_events(toplevels: Seq<DataView>, snaps: Seq<SnapshotView>, e: EventView)
    ensures
        manager::gone_events(toplevels, snaps).contains(e)
            <==> exists|i: int|
            0 <= i < toplevels.len() && !manager::listed(
                snaps,
                (#[trigger] toplevels[i]).surface,
            ) && toplevels[i].close_events().contains(e),
    decreases toplevels.len(),
{
    if toplevels.len() > 0 {
        let rest = toplevels.drop_last();
        let last = toplevels.last();
        lemma_gone_events(rest, snaps, e);
        assert(forall|i: int| 0 <= i < rest.len() ==> #[trigger] rest[i] == toplevels[i]);
        let a = manager::gone_events(rest, snaps);
        let b = if manager::listed(snaps, last.surface) {
            Seq::<EventView>::empty()
        } else {
            last.close_events()
        };
        let all = manager::gone_events(toplevels, snaps);
        assert(all == a + b);
        if all.contains(e) {
            let k = all.index_of(e);
            if k < a.len() {
                assert(a[k] == e);
                let i = choose|i: int|
                    0 <= i < rest.len() && !manager::listed(
                        snaps,
                        (#[trigger] rest[i]).surface,
                    ) && rest[i].close_events().contains(e);
                assert(toplevels[i] == rest[i]);
            } else {
                assert(b[k - a.len()] == e);
                assert(toplevels[toplevels.len() - 1] == last);
            }
        }
        if exists|i: int|
            0 <= i < toplevels.len() && !manager::listed(
                snaps,
                (#[trigger] toplevels[i]).surface,
            ) && toplevels[i].close_events().contains(e) {
            let i = choose|i: int|
                0 <= i < toplevels.len() && !manager::listed(
                    snaps,
                    (#[trigger] toplevels[i]).surface,
                ) && toplevels[i].close_events().contains(e);
            if i < rest.len() {
                assert(rest[i] == toplevels[i]);
                let k = a.index_of(e);
                assert(all[k] == e);
            } else {
                let k = b.index_of(e);
                assert(all[a.len() + k] == e);
            }
        }
    }
}

/// Among the events of a refresh, those that say that a toplevel is gone are exactly those of the
/// listed toplevels that are there no more.
pub proof fn law_closed_means_gone(
    f: ForeignView,
    snaps: Seq<SnapshotView>,
    clients: ClientsView,
    e: EventView,
)
    requires
        f.wf(),
        says_closed(e),
    ensures
        f.events.is_prefix_of(f.apply(snaps, clients).events),
        f.apply(snaps, clients).events.skip(f.events.len() as int).contains(e) <==> exists|i: int|
            #[trigger] tells_gone(f, snaps, i, e),
{
    let c = f.close_gone(snaps);
    let g = f.apply(snaps, clients);
    let gone = manager::gone_events(f.toplevels, snaps);
    let new = g.events.skip(f.events.len() as int);
    lemma_refresh_all_closes_none(c, snaps, clients);
    lemma_gone_events(f.toplevels, snaps, e);
    assert(f.events =~= g.events.take(f.events.len() as int)) by {
        assert(c.events.take(f.events.len() as int) =~= f.events);
    }
    if new.contains(e) {
        let k = new.index_of(e);
        assert(g.events[f.events.len() + k] == e);
        assert(f.events.len() + k < c.events.len());
        assert(c.events[f.events.len() + k] == e);
        assert(gone[k] == e);
        let i = choose|i: int|
            0 <= i < f.toplevels.len() && !manager::listed(
                snaps,
                (#[trigger] f.toplevels[i]).surface,
            ) && f.toplevels[i].close_events().contains(e);
        assert(tells_gone(f, snaps, i, e));
    }
    if exists|i: int| #[trigger] tells_gone(f, snaps, i, e) {
        let i = choose|i: int| #[trigger] tells_gone(f, snaps, i, e);
        assert(f.toplevels[i].close_events().contains(e));
        let k = gone.index_of(e);
        assert(c.events[f.events.len() + k] == e);
        assert(new[k] == e);
    }
}

/// Everything a manager hears of a toplevel, when it appears and when it changes, ends with the
/// event that says that it is complete; a toplevel without news says nothing.
pub proof fn law_changes_end_with_done(
    d: DataView,
    manager: u64,
    client: u64,
    i: InstanceView,
    snap: SnapshotView,
    clients: ClientsView,
)
    ensures
        d.announce_events(manager, client, clients).last() == (EventView::WlrDone {
            handle: d.handle(manager),
        }),
        d.instance_update_events(i, snap, clients).last() == (EventView::WlrDone {
            handle: i.handle,
        }),
        d.ext_update_events(snap).len() > 0 ==> d.ext_update_events(snap).last()
            == (EventView::ExtDone { surface: d.ext_handle->0 }),
        d.says(snap) ==> d.update_events(snap, clients).len() == 0,
{
}

/// After a change the handles of a toplevel remember no output object that is gone.
pub proof fn law_dead_outputs_are_forgotten(
    d: DataView,
    snap: SnapshotView,
    clients: ClientsView,
    k: int,
    output: u64,
)
    requires
        0 <= k < d.instances.len(),
        d.updated(snap, clients).instances[k].outputs.contains(output),
    ensures
        clients.live_resources.contains(output),
{
    let outputs = if d.output != snap.output {
        clients.live_client_outputs(snap.output, d.instances[k].client)
    } else {
        d.instances[k].outputs
    };
    lemma_filtered(outputs, |o: u64| clients.live_resources.contains(o));
}

/// A manager gets a handle of every toplevel that appears while its client is connected.
proof fn lemma_announced_to_all(
    d: DataView,
    managers: Seq<Manager>,
    clients: ClientsView,
    m: u64,
)
    ensures
        d.announced_to_all(managers, clients).surface == d.surface,
        d.announced_to_all(managers, clients).has_instance(d.handle(m)) <==> d.has_instance(
            d.handle(m),
        ) || exists|k: int|
            0 <= k < managers.len() && (#[trigger] managers[k]).id == m && clients.live.contains(
                managers[k].client,
            ),
    decreases managers.len(),
{
    if managers.len() > 0 {
        let rest = managers.drop_last();
        let last = managers.last();
        lemma_announced_to_all(d, rest, clients, m);
        assert(forall|k: int| 0 <= k < rest.len() ==> #[trigger] rest[k] == managers[k]);
        assert(managers[managers.len() - 1] == last);
        let a = d.announced_to_all(rest, clients);
        let b = d.announced_to_all(managers, clients);
        if clients.live.contains(last.client) {
            assert(b.instances.drop_last() =~= a.instances);
            assert(forall|k: int|
                0 <= k < a.instances.len() ==> #[trigger] a.instances[k] == b.instances[k]);
            assert(b.instances[b.instances.len() - 1].handle == d.handle(last.id));
            if a.has_instance(d.handle(m)) {
                let k = choose|k: int|
                    0 <= k < a.instances.len() && (#[trigger] a.instances[k]).handle
                        == d.handle(m);
                assert(b.instances[k].handle == d.handle(m));
            }
            if b.has_instance(d.handle(m)) {
                let k = choose|k: int|
                    0 <= k < b.instances.len() && (#[trigger] b.instances[k]).handle
                        == d.handle(m);
                if k < a.instances.len() {
                    assert(a.instances[k].handle == d.handle(m));
                }
            }
        }
        if exists|k: int|
            0 <= k < managers.len() && (#[trigger] managers[k]).id == m && clients.live.contains(
                managers[k].client,
            ) {
            let k = choose|k: int|
                0 <= k < managers.len() && (#[trigger] managers[k]).id == m
                    && clients.live.contains(managers[k].client);
            if k < rest.len() {
                assert(rest[k].id == m);
            }
        }
        if exists|k: int|
            0 <= k < rest.len() && (#[trigger] rest[k]).id == m && clients.live.contains(
                rest[k].client,
            ) {
            let k = choose|k: int|
                0 <= k < rest.len() && (#[trigger] rest[k]).id == m && clients.live.contains(
                    rest[k].client,
                );
            assert(managers[k].id == m);
        }
    }
}

/// When a toplevel appears, exactly the managers that watch, and whose client is connected, get a
/// handle of it. A manager that has stopped does not watch.
pub proof fn law_watchers_get_handles(
    f: ForeignView,
    snap: SnapshotView,
    clients: ClientsView,
    manager: u64,
)
    requires
        f.wf(),
        !f.knows(snap.surface),
    ensures
        f.refresh_one(snap, clients).told(snap.surface).has_instance(
            WlrHandle { manager, surface: snap.surface },
        ) <==> exists|k: int|
            0 <= k < f.managers.len() && (#[trigger] f.managers[k]).id == manager
                && clients.live.contains(f.managers[k].client),
        !f.stop(manager).refresh_one(snap, clients).told(snap.surface).has_instance(
            WlrHandle { manager, surface: snap.surface },
        ),
{
    lemma_new_handles(f, snap, clients, manager);
    let stopped = f.stop(manager);
    lemma_managers_left(f.managers, manager);
    lemma_new_handles(stopped, snap, clients, manager);
    lemma_filtered(f.managers, |m: Manager| m.id != manager);
}

proof fn lemma_new_handles(
    f: ForeignView,
    snap: SnapshotView,
    clients: ClientsView,
    manager: u64,
)
    requires
        f.wf(),
        !f.knows(snap.surface),
    ensures
        f.refresh_one(snap, clients).told(snap.surface).has_instance(
            WlrHandle { manager, surface: snap.surface },
        ) <==> exists|k: int|
            0 <= k < f.managers.len() && (#[trigger] f.managers[k]).id == manager
                && clients.live.contains(f.managers[k].client),
{
    let g = f.refresh_one(snap, clients);
    let d = snap.unannounced();
    lemma_refresh_one(f, snap, clients);
    lemma_announced_to_all(d, f.managers, clients, manager);
    lemma_index(g.toplevels, g.toplevels.len() - 1);
    assert(!d.has_instance(d.handle(manager)));
}

/// A manager that binds gets a handle of every toplevel there is.
pub proof fn law_bind_lists_everything(
    f: ForeignView,
    manager: u64,
    client: u64,
    clients: ClientsView,
    surface: u64,
)
    requires
        f.wf(),
        f.knows(surface),
    ensures
        f.bind(manager, client, clients).knows(surface),
        f.bind(manager, client, clients).told(surface).has_instance(WlrHandle { manager, surface }),
{
    let g = f.bind(manager, client, clients);
    let i = manager::index_of(f.toplevels, surface);
    assert(g.toplevels[i].surface == surface);
    assert(forall|j: int|
        0 <= j < g.toplevels.len() ==> (#[trigger] g.toplevels[j]).surface
            == f.toplevels[j].surface);
    assert(manager::toplevels_distinct(g.toplevels));
    lemma_index(g.toplevels, i);
    let d = g.toplevels[i];
    assert(d.instances[d.instances.len() - 1].handle == (WlrHandle { manager, surface }));
}

/// A handle stands for its own toplevel or, once that is closed, for none.
pub proof fn law_handle_names_its_toplevel(f: ForeignView, handle: WlrHandle)
    requires
        f.wf(),
    ensures
        ForeignView::handle_owner(f.toplevels, handle) == if f.knows(handle.surface) && f.told(
            handle.surface,
        ).has_instance(handle) {
            Some(handle.surface)
        } else {
            None
        },
{
    lemma_handle_owner(f.toplevels, handle);
    match ForeignView::handle_owner(f.toplevels, handle) {
        Some(s) => {
            let i = choose|i: int|
                0 <= i < f.toplevels.len() && (#[trigger] f.toplevels[i]).surface == s
                    && f.toplevels[i].has_instance(handle);
            assert(f.toplevels[i].owns_handles());
            lemma_index(f.toplevels, i);
        },
        None => {
            if f.knows(handle.surface) {
                let i = manager::index_of(
                    f.toplevels,
                    handle.surface,
                );
                assert(!f.toplevels[i].has_instance(handle));
            }
        },
    }
}

pub(crate) proof fn lemma_handle_owner(toplevels: Seq<DataView>, handle: WlrHandle)
    ensures
        ForeignView::handle_owner(toplevels, handle) matches Some(s) ==> exists|i: int|
            0 <= i < toplevels.len() && (#[trigger] toplevels[i]).surface == s
                && toplevels[i].has_instance(handle),
        ForeignView::handle_owner(toplevels, handle) is None ==> forall|i: int|
            0 <= i < toplevels.len() ==> !(#[trigger] toplevels[i]).has_instance(handle),
    decreases toplevels.len(),
{
    if toplevels.len() > 0 && !toplevels[0].has_instance(handle) {
        let rest = toplevels.drop_first();
        lemma_handle_owner(rest, handle);
        assert(forall|i: int| 0 <= i < rest.len() ==> #[trigger] rest[i] == toplevels[i + 1]);
        match ForeignView::handle_owner(rest, handle) {
            Some(s) => {
                let i = choose|i: int|
                    0 <= i < rest.len() && (#[trigger] rest[i]).surface == s
                        && rest[i].has_instance(handle);
                assert(toplevels[i + 1].surface == s);
            },
            None => {
                assert forall|i: int| 0 <= i < toplevels.len() implies !(
                #[trigger] toplevels[i]).has_instance(handle) by {
                    if i > 0 {
                        assert(rest[i - 1] == toplevels[i]);
                    }
                }
            },
        }
    }
}

/// A handle that its client destroyed stands for nothing any more; the other handles stay.
pub proof fn law_destroyed_handle_is_dead(f: ForeignView, handle: WlrHandle, other: WlrHandle)
    requires
        f.wf(),
    ensures
        ForeignView::handle_owner(f.remove_wlr_instance(handle).toplevels, handle) is None,
        other != handle ==> ForeignView::handle_owner(
            f.remove_wlr_instance(handle).toplevels,
            other,
        ) == ForeignView::handle_owner(f.toplevels, other),
{
    let g = f.remove_wlr_instance(handle);
    assert forall|i: int| 0 <= i < g.toplevels.len() implies (
    #[trigger] g.toplevels[i]).owns_handles() by {
        lemma_without_instance(f.toplevels[i], handle);
    }
    assert(g.wf());
    law_handle_names_its_toplevel(g, handle);
    law_handle_names_its_toplevel(g, other);
    law_handle_names_its_toplevel(f, other);
    assert forall|s: u64| #[trigger] f.knows(s) <==> g.knows(s) by {
        if f.knows(s) {
            let i = manager::index_of(f.toplevels, s);
            assert(g.toplevels[i].surface == s);
        }
        if g.knows(s) {
            let i = manager::index_of(g.toplevels, s);
            assert(f.toplevels[i].surface == s);
        }
    }
    assert forall|s: u64| g.knows(s) implies g.told(s) == f.told(s).without_instance(handle) by {
        let i = manager::index_of(g.toplevels, s);
        assert(f.toplevels[i].surface == s);
        lemma_index(f.toplevels, i);
    }
    assert(f.knows(handle.surface) <==> g.knows(handle.surface));
    assert(f.knows(other.surface) <==> g.knows(other.surface));
    if g.knows(handle.surface) {
        lemma_without_instance(f.told(handle.surface), handle);
    }
    if g.knows(other.surface) {
        lemma_without_instance(f.told(other.surface), handle);
    }
}

/// A handle that could not be created leaves no trace: taking it back gives the toplevel as it was
/// before the handle was added, and of everything that was to be told nothing but what concerned
/// the handle is dropped.
pub proof fn law_failed_handle_leaves_no_trace(
    d: DataView,
    manager: u64,
    client: u64,
    clients: ClientsView,
    events: Seq<EventView>,
)
    requires
        !d.has_instance(d.handle(manager)),
        forall|k: int| 0 <= k < events.len() ==> !(#[trigger] events[k]).concerns(d.handle(manager)),
    ensures
        d.announced(manager, client, clients).without_instance(d.handle(manager)) == d,
        (events + d.announce_events(manager, client, clients)).filter(
            |e: EventView| !e.concerns(d.handle(manager)),
        ) == events,
{
    let handle = d.handle(manager);
    let others = |i: InstanceView| i.handle != handle;
    let a = d.announced(manager, client, clients);
    reveal(Seq::filter);
    assert(a.instances.drop_last() =~= d.instances);
    lemma_filter_all(d.instances, others);
    assert(a.without_instance(handle).instances =~= d.instances);
    let pred = |e: EventView| !e.concerns(handle);
    let new = d.announce_events(manager, client, clients);
    lemma_filter_all(events, pred);
    assert forall|k: int| 0 <= k < new.len() implies !pred(#[trigger] new[k]) by {}
    lemma_filter_none(events, new, pred);
}

/// Taking a handle back touches no other: the other handles stand for what they stood for, and
/// what was to be told of them is still told.
pub proof fn law_retracting_touches_no_other(
    f: ForeignView,
    handle: WlrHandle,
    other: WlrHandle,
    e: EventView,
)
    requires
        f.wf(),
        other != handle,
        !e.concerns(handle),
    ensures
        ForeignView::handle_owner(f.retract(handle).toplevels, handle) is None,
        ForeignView::handle_owner(f.retract(handle).toplevels, other) == ForeignView::handle_owner(
            f.toplevels,
            other,
        ),
        f.retract(handle).managers == f.managers,
        f.retract(handle).events.contains(e) <==> f.events.contains(e),
{
    law_destroyed_handle_is_dead(f, handle, other);
    lemma_filtered(f.events, |x: EventView| !x.concerns(handle));
}

/// Nothing is filtered out where everything is wanted.
proof fn lemma_filter_all<A>(s: Seq<A>, pred: spec_fn(A) -> bool)
    requires
        forall|k: int| 0 <= k < s.len() ==> pred(#[trigger] s[k]),
    ensures
        s.filter(pred) == s,
    decreases s.len(),
{
    reveal(Seq::filter);
    if s.len() > 0 {
        let rest = s.drop_last();
        assert(forall|k: int| 0 <= k < rest.len() ==> #[trigger] rest[k] == s[k]);
        lemma_filter_all(rest, pred);
        assert(pred(s[s.len() - 1]));
        assert(s =~= rest.push(s.last()));
    } else {
        assert(s.filter(pred) =~= s);
    }
}

/// What is unwanted can be appended without a difference.
proof fn lemma_filter_none<A>(s: Seq<A>, more: Seq<A>, pred: spec_fn(A) -> bool)
    requires
        forall|k: int| 0 <= k < more.len() ==> !pred(#[trigger] more[k]),
    ensures
        (s + more).filter(pred) == s.filter(pred),
    decreases more.len(),
{
    reveal(Seq::filter);
    if more.len() > 0 {
        let rest = more.drop_last();
        assert(forall|k: int| 0 <= k < rest.len() ==> #[trigger] rest[k] == more[k]);
        lemma_filter_none(s, rest, pred);
        assert(!pred(more[more.len() - 1]));
        assert((s + more).drop_last() =~= s + rest);
        assert((s + more).last() == more.last());
    } else {
        assert(s + more =~= s);
    }
}

/// A client can bring a toplevel to the front and ask it to close; nothing else it asks for is
/// granted.
pub proof fn law_other_requests_do_nothing(
    s: StateView,
    handle: WlrHandle,
    request: HandleRequest,
    serial: u32,
)
    requires
        request != HandleRequest::Activate,
        request != HandleRequest::Close,
    ensures
        s.handle_request(handle, request, serial) == s,
{
}

/// The snapshots of a refresh are one for every live toplevel, and the focused one comes last.
pub proof fn law_focused_comes_last(s: StateView, order: Seq<u64>)
    requires
        s.wf(),
        refresh::is_walk(order, s.toplevels),
    ensures
        manager::snapshots_distinct(s.snapshots(order)),
        forall|w: u64|
            #[trigger] manager::listed(s.snapshots(order), w)
                <==> s.toplevels.contains_key(w) && s.windows[w].alive,
        forall|i: int|
            0 <= i < s.snapshots(order).len() ==> (#[trigger] s.snapshots(order)[i]) == s.snapshot(
                s.snapshots(order)[i].surface,
            ),
        forall|i: int|
            0 <= i < s.snapshots(order).len() && s.keyboard_focus == Some(
                (#[trigger] s.snapshots(order)[i]).surface,
            ) ==> i == s.snapshots(order).len() - 1,
{
    let plain = |w: u64| s.windows[w].alive && (s.keyboard_focus == Some(w)) == false;
    let focused = |w: u64| s.windows[w].alive && (s.keyboard_focus == Some(w)) == true;
    let a = order.filter(plain);
    let b = order.filter(focused);
    lemma_filtered(order, plain);
    lemma_filtered(order, focused);
    let snaps = s.snapshots(order);
    assert(s.snapshots_of(order, false) =~= a.map_values(|w: u64| s.snapshot(w))) by {
        assert((|w: u64| s.windows[w].alive && (s.keyboard_focus == Some(w)) == false) =~= plain);
    }
    assert(s.snapshots_of(order, true) =~= b.map_values(|w: u64| s.snapshot(w))) by {
        assert((|w: u64| s.windows[w].alive && (s.keyboard_focus == Some(w)) == true) =~= focused);
    }
    assert(snaps.len() == a.len() + b.len());
    assert forall|i: int| 0 <= i < snaps.len() implies (#[trigger] snaps[i]).surface == (a + b)[i]
        && snaps[i] == s.snapshot((a + b)[i]) by {}
    assert forall|i: int, j: int|
        #![trigger b[i], b[j]]
        0 <= i < b.len() && 0 <= j < b.len() implies i == j by {
        assert(focused(b[i]) && focused(b[j]));
        assert(b[i] == b[j]);
    }
    assert forall|i: int, j: int|
        #![trigger snaps[i], snaps[j]]
        0 <= i < snaps.len() && 0 <= j < snaps.len() && snaps[i].surface
            == snaps[j].surface implies i == j by {
        if i < a.len() {
            assert(plain(a[i]));
        } else {
            assert(focused(b[i - a.len()]));
        }
        if j < a.len() {
            assert(plain(a[j]));
        } else {
            assert(focused(b[j - a.len()]));
        }
    }
    assert forall|w: u64| #[trigger]
        manager::listed(snaps, w) <==> s.toplevels.contains_key(
            w,
        ) && s.windows[w].alive by {
        assert(order.contains(w) <==> order.to_set().contains(w));
        if manager::listed(snaps, w) {
            let i = choose|i: int| 0 <= i < snaps.len() && (#[trigger] snaps[i]).surface == w;
            if i < a.len() {
                assert(a[i] == w);
                assert(a.contains(w));
            } else {
                assert(b[i - a.len()] == w);
                assert(b.contains(w));
            }
        }
        if s.toplevels.contains_key(w) && s.windows[w].alive {
            if s.keyboard_focus == Some(w) {
                assert(b.contains(w));
                let k = b.index_of(w);
                assert(snaps[a.len() + k].surface == w);
            } else {
                assert(a.contains(w));
                let k = a.index_of(w);
                assert(snaps[k].surface == w);
            }
        }
    }
    assert forall|i: int|
        0 <= i < snaps.len() && s.keyboard_focus == Some((#[trigger] snaps[i]).surface) implies i
        == snaps.len() - 1 by {
        if i < a.len() {
            assert(plain(a[i]));
        } else {
            assert(focused(b[i - a.len()]));
            assert(focused(b[b.len() - 1]));
        }
    }
}

/// After a refresh the clients know exactly the live toplevels, each with its title, application,
/// states and output; refreshing again, in whatever order, says nothing.
pub proof fn law_refresh_shows_live_toplevels(
    s: StateView,
    order: Seq<u64>,
    clients: ClientsView,
    later_order: Seq<u64>,
    later_clients: ClientsView,
)
    requires
        s.wf(),
        refresh::is_walk(order, s.toplevels),
        refresh::is_walk(later_order, s.toplevels),
    ensures
        forall|w: u64|
            #[trigger] s.foreign_toplevel_refresh(order, clients).foreign.knows(w)
                <==> s.toplevels.contains_key(w) && s.windows[w].alive,
        forall|w: u64|
            s.toplevels.contains_key(w) && s.windows[w].alive
                ==> #[trigger] s.foreign_toplevel_refresh(order, clients).foreign.told(w).says(
                s.snapshot(w),
            ),
        s.foreign_toplevel_refresh(order, clients).foreign_toplevel_refresh(
            later_order,
            later_clients,
        ).foreign.events == s.foreign_toplevel_refresh(order, clients).foreign.events,
{
    let snaps = s.snapshots(order);
    let t = s.foreign_toplevel_refresh(order, clients);
    law_focused_comes_last(s, order);
    law_list_mirrors_windows(s.foreign, snaps, clients);
    assert forall|w: u64| s.toplevels.contains_key(w) && s.windows[w].alive implies #[trigger]
    t.foreign.told(w).says(s.snapshot(w)) by {
        assert(manager::listed(snaps, w));
        let i = choose|i: int| 0 <= i < snaps.len() && (#[trigger] snaps[i]).surface == w;
        assert(snaps[i] == s.snapshot(w));
    }
    lemma_refresh_keeps_codes(s.foreign.close_gone(snaps), snaps, clients);
    law_focused_comes_last(t, later_order);
    let later = t.snapshots(later_order);
    assert forall|i: int| 0 <= i < later.len() implies t.foreign.knows(
        (#[trigger] later[i]).surface,
    ) && t.foreign.told(later[i].surface).says(later[i]) by {
        let w = later[i].surface;
        assert(manager::listed(later, w));
        assert(later[i] == t.snapshot(w));
        assert(t.snapshot(w) == s.snapshot(w));
        assert(t.foreign.told(w).says(s.snapshot(w)));
    }
    assert forall|i: int| 0 <= i < t.foreign.toplevels.len() implies manager::listed(
        later,
        (#[trigger] t.foreign.toplevels[i]).surface,
    ) by {
        let w = t.foreign.toplevels[i].surface;
        lemma_index(t.foreign.toplevels, i);
        assert(t.foreign.knows(w));
        assert(manager::listed(snaps, w));
    }
    lemma_nothing_gone(t.foreign.toplevels, later);
    let c = t.foreign.close_gone(later);
    assert(c.events =~= t.foreign.events);
    assert(c =~= t.foreign);
    lemma_refresh_all_quiet(c, later, later_clients);
}

proof fn lemma_refresh_keeps_codes(f: ForeignView, snaps: Seq<SnapshotView>, clients: ClientsView)
    ensures
        f.refresh_all(snaps, clients).codes == f.codes,
    decreases snaps.len(),
{
    if snaps.len() > 0 {
        lemma_refresh_keeps_codes(f, snaps.drop_last(), clients);
    }
}

} // verus!
