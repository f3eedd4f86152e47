//! What the list remembers, and what managers come, go and hear.

use vstd::prelude::*;
use crate::handlers::foreign_toplevel::data::{
    ClientsView, DataView, EventView, InstanceView, Manager, SnapshotView, WlrHandle,
};
use crate::handlers::foreign_toplevel::encoding;
use crate::handlers::foreign_toplevel::encoding::StateCodes;
use crate::handlers::foreign_toplevel::laws;
use crate::handlers::foreign_toplevel::laws::{
    law_closed_means_gone, law_focused_comes_last, law_list_mirrors_windows, lemma_refresh_all,
};
use crate::handlers::foreign_toplevel::manager;
use crate::handlers::foreign_toplevel::manager::{
    lemma_index, lemma_refresh_one, lemma_remaining, ForeignView,
};
use crate::handlers::foreign_toplevel::refresh;
use crate::handlers::foreign_toplevel::replay_laws;
use crate::handlers::foreign_toplevel::replay_laws::{
    lemma_announcement_teaches, lemma_bound, lemma_last_word_add, lemma_replay_add, lemma_unheard,
    Knowledge,
};
use crate::state::StateView;
use crate::toplevel::WindowMode;

verus! {

/// When a listed toplevel is gone, the ext list and every handle of it hear so; of a toplevel that is
/// still there no one hears that it is gone.
pub proof fn law_refresh_tells_gone(
    f: ForeignView,
    snaps: Seq<SnapshotView>,
    clients: ClientsView,
    t: int,
    i: int,
)
    requires
        f.wf(),
        0 <= t < f.toplevels.len(),
    ensures
        ({
            let d = f.toplevels[t];
            let new = replay_laws::news(f, snaps, clients);
            let there = exists|j: int|
                0 <= j < snaps.len() && (#[trigger] snaps[j]).surface == d.surface;
            &&& new.contains(EventView::ExtClosed { surface: d.surface }) <==> !there
            &&& 0 <= i < d.instances.len() ==> (new.contains(
                EventView::WlrClosed { handle: d.instances[i].handle },
            ) <==> !there)
        }),
{
    let d = f.toplevels[t];
    let ext = EventView::ExtClosed { surface: d.surface };
    let wlr = EventView::WlrClosed { handle: d.instances[i].handle };
    law_closed_means_gone(f, snaps, clients, ext);
    law_closed_means_gone(f, snaps, clients, wlr);
    assert(d.owns_handles());
    assert(d.close_events()[0] == ext);
    let valid = 0 <= i < d.instances.len();
    assert(valid ==> d.close_events()[1 + i] == wlr);
    if manager::listed(snaps, d.surface) {
        assert forall|x: int| !#[trigger] laws::tells_gone(
            f,
            snaps,
            x,
            ext,
        ) && (valid ==> !laws::tells_gone(f, snaps, x, wlr)) by {
            if 0 <= x < f.toplevels.len() {
                let o = f.toplevels[x];
                assert(o.owns_handles());
                let es = o.close_events();
                if es.contains(ext) {
                    let k = es.index_of(ext);
                    assert(es[k] == ext);
                    assert(o.surface == d.surface);
                }
                if valid && es.contains(wlr) {
                    let k = es.index_of(wlr);
                    assert(es[k] == wlr);
                    assert(o.instances[k - 1].handle.surface == o.surface);
                    assert(d.instances[i].handle.surface == d.surface);
                }
            }
        }
    } else {
        assert(laws::tells_gone(f, snaps, t, ext));
        assert(valid ==> laws::tells_gone(f, snaps, t, wlr));
    }
}

/// What the list holds of each toplevel after a refresh.
proof fn lemma_refresh_exact(f: ForeignView, snaps: Seq<SnapshotView>, clients: ClientsView, j: int)
    requires
        f.wf(),
        manager::snapshots_distinct(snaps),
        0 <= j < snaps.len(),
    ensures
        f.refresh_all(snaps, clients).told(snaps[j].surface) == if f.knows(snaps[j].surface) {
            f.told(snaps[j].surface).updated(snaps[j], clients)
        } else {
            snaps[j].unannounced().announced_to_all(f.managers, clients)
        },
    decreases snaps.len(),
{
    let rest = snaps.drop_last();
    let last = snaps.last();
    let n = snaps.len() as int;
    let s = snaps[j].surface;
    assert(snaps[n - 1] == last);
    assert(forall|i: int| 0 <= i < rest.len() ==> #[trigger] rest[i] == snaps[i]);
    assert(manager::snapshots_distinct(rest));
    lemma_refresh_all(f, rest, clients);
    let r = f.refresh_all(rest, clients);
    lemma_refresh_one(r, last, clients);
    let g = r.refresh_one(last, clients);
    if j < n - 1 {
        lemma_refresh_exact(f, rest, clients, j);
        assert(last.surface != s);
        assert(manager::listed(rest, s)) by {
            assert(rest[j].surface == s);
        }
        assert(r.knows(s));
        assert(manager::known(r.toplevels, s));
        let k = manager::index_of(r.toplevels, s);
        assert(g.told(s) == r.told(s));
    } else {
        assert(!manager::listed(rest, s)) by {
            if manager::listed(rest, s) {
                let i = choose|i: int| 0 <= i < rest.len() && (#[trigger] rest[i]).surface == s;
                assert(snaps[i].surface == snaps[n - 1].surface);
            }
        }
        assert(r.knows(s) <==> f.knows(s));
        if f.knows(s) {
            assert(r.told(s) == f.told(s));
            let k = manager::index_of(r.toplevels, s);
            assert(g.toplevels[k].surface == s);
            lemma_index(g.toplevels, k);
        } else {
            let k = r.toplevels.len() as int;
            assert(g.toplevels[k] == last.unannounced().announced_to_all(r.managers, clients));
            lemma_announced_surface(last.unannounced(), r.managers, clients);
            lemma_index(g.toplevels, k);
        }
    }
}

proof fn lemma_announced_surface(d: DataView, managers: Seq<Manager>, clients: ClientsView)
    ensures
        d.announced_to_all(managers, clients) == (DataView {
            instances: d.announced_to_all(managers, clients).instances,
            ..d
        }),
    decreases managers.len(),
{
    if managers.len() > 0 {
        lemma_announced_surface(d, managers.drop_last(), clients);
    }
}

/// Those of `outputs` that are among `live`.
pub open spec fn surviving(outputs: Seq<u64>, live: Seq<u64>) -> Seq<u64>
    decreases outputs.len(),
{
    if outputs.len() == 0 {
        outputs
    } else if exists|k: int| 0 <= k < live.len() && #[trigger] live[k] == outputs.last() {
        surviving(outputs.drop_last(), live).push(outputs.last())
    } else {
        surviving(outputs.drop_last(), live)
    }
}

proof fn lemma_surviving(clients: ClientsView, outputs: Seq<u64>)
    ensures
        clients.existing(outputs) == surviving(outputs, clients.live_resources),
    decreases outputs.len(),
{
    reveal(Seq::filter);
    if outputs.len() > 0 {
        lemma_surviving(clients, outputs.drop_last());
    }
}

/// The list after a refresh: exactly the toplevels of `snaps`, each under one entry.
proof fn lemma_applied(f: ForeignView, snaps: Seq<SnapshotView>, clients: ClientsView, j: int)
    requires
        f.wf(),
        manager::snapshots_distinct(snaps),
        0 <= j < snaps.len(),
    ensures
        f.apply(snaps, clients).knows(snaps[j].surface),
        f.apply(snaps, clients).told(snaps[j].surface) == if f.knows(snaps[j].surface) {
            f.told(snaps[j].surface).updated(snaps[j], clients)
        } else {
            snaps[j].unannounced().announced_to_all(f.managers, clients)
        },
{
    let c = f.close_gone(snaps);
    let s = snaps[j].surface;
    lemma_remaining(f.toplevels, snaps);
    assert(manager::listed(snaps, s));
    assert forall|i: int| 0 <= i < c.toplevels.len() implies (
    #[trigger] c.toplevels[i]).owns_handles() by {
        let k = manager::index_of(f.toplevels, c.toplevels[i].surface);
        assert(f.toplevels[k].owns_handles());
    }
    assert(c.wf());
    assert(manager::known(manager::remaining(f.toplevels, snaps), s) <==> manager::known(
        f.toplevels,
        s,
    ) && manager::listed(snaps, s));
    if f.knows(s) {
        let k = manager::index_of(c.toplevels, s);
        assert(c.toplevels[k] == manager::remaining(f.toplevels, snaps)[k]);
    }
    lemma_refresh_exact(c, snaps, clients, j);
    law_list_mirrors_windows(f, snaps, clients);
}

/// After a refresh the list remembers of every toplevel what it was told of it: the title, the
/// application, the states and the output, and for each handle that it had the output objects that
/// the client was told of and that still exist. No handle comes or goes.
pub proof fn law_list_remembers_changes(
    f: ForeignView,
    snaps: Seq<SnapshotView>,
    clients: ClientsView,
    t: int,
    j: int,
)
    requires
        f.wf(),
        replay_laws::one_each(snaps),
        0 <= t < f.toplevels.len(),
        0 <= j < snaps.len(),
        snaps[j].surface == f.toplevels[t].surface,
    ensures
        ({
            let d = f.toplevels[t];
            let g = f.apply(snaps, clients);
            exists|x: int|
                0 <= x < g.toplevels.len() && {
                    let e = #[trigger] g.toplevels[x];
                    &&& e == (DataView {
                        title: snaps[j].title,
                        app_id: snaps[j].app_id,
                        states: snaps[j].states,
                        output: snaps[j].output,
                        instances: e.instances,
                        ..d
                    })
                    &&& e.instances.len() == d.instances.len()
                    &&& forall|i: int|
                        0 <= i < d.instances.len() ==> #[trigger] e.instances[i] == (
                        InstanceView {
                            outputs: surviving(
                                replay_laws::should_know(d, i, snaps[j], clients).outputs,
                                clients.live_resources,
                            ),
                            ..d.instances[i]
                        })
                }
        }),
{
    let d = f.toplevels[t];
    let g = f.apply(snaps, clients);
    assert(manager::snapshots_distinct(snaps));
    lemma_index(f.toplevels, t);
    lemma_applied(f, snaps, clients, j);
    let x = manager::index_of(g.toplevels, d.surface);
    let e = g.toplevels[x];
    assert(e == d.updated(snaps[j], clients));
    assert forall|i: int| 0 <= i < d.instances.len() implies #[trigger] e.instances[i] == (
    InstanceView {
        outputs: surviving(
            replay_laws::should_know(d, i, snaps[j], clients).outputs,
            clients.live_resources,
        ),
        ..d.instances[i]
    }) by {
        lemma_bound(clients, snaps[j].output, d.instances[i].client);
        lemma_surviving(clients, replay_laws::should_know(d, i, snaps[j], clients).outputs);
        assert(e.instances[i] == d.updated_instance(d.instances[i], snaps[j], clients));
    }
}

/// The handles that managers get of a toplevel, one for each whose client is connected, in order.
pub open spec fn handles_for(
    managers: Seq<Manager>,
    snap: SnapshotView,
    clients: ClientsView,
) -> Seq<InstanceView>
    decreases managers.len(),
{
    if managers.len() == 0 {
        Seq::empty()
    } else if exists|k: int|
        0 <= k < clients.live.len() && #[trigger] clients.live[k] == managers.last().client {
        handles_for(managers.drop_last(), snap, clients).push(
            InstanceView {
                handle: WlrHandle { manager: managers.last().id, surface: snap.surface },
                client: managers.last().client,
                outputs: replay_laws::bound(
                    clients.bindings,
                    snap.output,
                    managers.last().client,
                ),
            },
        )
    } else {
        handles_for(managers.drop_last(), snap, clients)
    }
}

proof fn lemma_handles_for(managers: Seq<Manager>, snap: SnapshotView, clients: ClientsView)
    ensures
        snap.unannounced().announced_to_all(managers, clients).instances == handles_for(
            managers,
            snap,
            clients,
        ),
    decreases managers.len(),
{
    if managers.len() > 0 {
        lemma_handles_for(managers.drop_last(), snap, clients);
        lemma_announced_surface(snap.unannounced(), managers.drop_last(), clients);
        lemma_bound(clients, snap.output, managers.last().client);
    }
}

/// After a refresh the list holds a toplevel that appeared as its snapshot says, with a handle for
/// every manager that watches and whose client is connected.
pub proof fn law_list_remembers_new(
    f: ForeignView,
    snaps: Seq<SnapshotView>,
    clients: ClientsView,
    j: int,
)
    requires
        f.wf(),
        replay_laws::one_each(snaps),
        0 <= j < snaps.len(),
        forall|t: int|
            0 <= t < f.toplevels.len() ==> (#[trigger] f.toplevels[t]).surface != snaps[j].surface,
    ensures
        f.apply(snaps, clients).toplevels.contains(
            DataView {
                surface: snaps[j].surface,
                title: snaps[j].title,
                app_id: snaps[j].app_id,
                states: snaps[j].states,
                output: snaps[j].output,
                instances: handles_for(f.managers, snaps[j], clients),
                ext_handle: Some(snaps[j].surface),
            },
        ),
        f.apply(snaps, clients).managers == f.managers,
        f.apply(snaps, clients).codes == f.codes,
{
    let g = f.apply(snaps, clients);
    assert(manager::snapshots_distinct(snaps));
    assert(!f.knows(snaps[j].surface));
    lemma_applied(f, snaps, clients, j);
    lemma_handles_for(f.managers, snaps[j], clients);
    lemma_announced_surface(snaps[j].unannounced(), f.managers, clients);
    let x = manager::index_of(g.toplevels, snaps[j].surface);
    assert(g.toplevels[x].surface == snaps[j].surface);
    lemma_refresh_keeps_the_rest(f.close_gone(snaps), snaps, clients);
}

proof fn lemma_refresh_keeps_the_rest(f: ForeignView, snaps: Seq<SnapshotView>, clients: ClientsView)
    ensures
        f.refresh_all(snaps, clients).codes == f.codes,
        f.refresh_all(snaps, clients).managers == f.managers,
    decreases snaps.len(),
{
    if snaps.len() > 0 {
        lemma_refresh_keeps_the_rest(f, snaps.drop_last(), clients);
    }
}

/// After a refresh the list holds no toplevel but those of the snapshots, and none twice.
pub proof fn law_list_holds_no_other(
    f: ForeignView,
    snaps: Seq<SnapshotView>,
    clients: ClientsView,
    x: int,
)
    requires
        f.wf(),
        replay_laws::one_each(snaps),
        0 <= x < f.apply(snaps, clients).toplevels.len(),
    ensures
        ({
            let g = f.apply(snaps, clients);
            &&& exists|j: int|
                0 <= j < snaps.len() && (#[trigger] snaps[j]).surface == g.toplevels[x].surface
            &&& forall|y: int|
                0 <= y < g.toplevels.len() && y != x ==> (#[trigger] g.toplevels[y]).surface
                    != g.toplevels[x].surface
        }),
{
    let g = f.apply(snaps, clients);
    assert(manager::snapshots_distinct(snaps));
    law_list_mirrors_windows(f, snaps, clients);
    lemma_index(g.toplevels, x);
    assert(g.knows(g.toplevels[x].surface));
    assert(manager::listed(snaps, g.toplevels[x].surface));
}

/// What a manager that binds hears of the `t`th toplevel.
proof fn lemma_bind_teaches(
    toplevels: Seq<DataView>,
    m: u64,
    client: u64,
    clients: ClientsView,
    t: int,
    k: Knowledge,
)
    requires
        manager::toplevels_distinct(toplevels),
        0 <= t < toplevels.len(),
    ensures
        ({
            let d = toplevels[t];
            let h = WlrHandle { manager: m, surface: d.surface };
            let es = ForeignView::bind_events(toplevels, m, client, clients);
            &&& replay_laws::replay(k, es, h) == (Knowledge {
                title: d.title,
                app_id: d.app_id,
                states: d.states,
                outputs: k.outputs + replay_laws::bound(clients.bindings, d.output, client),
            })
            &&& replay_laws::last_word(es, h) == Some(EventView::WlrDone { handle: h })
            &&& es.contains(EventView::WlrNew { handle: h })
        }),
    decreases toplevels.len(),
{
    let d = toplevels[t];
    let h = WlrHandle { manager: m, surface: d.surface };
    let rest = toplevels.drop_last();
    let last = toplevels.last();
    let n = toplevels.len() as int;
    assert(toplevels[n - 1] == last);
    assert(forall|x: int| 0 <= x < rest.len() ==> #[trigger] rest[x] == toplevels[x]);
    assert(manager::toplevels_distinct(rest));
    let a = ForeignView::bind_events(rest, m, client, clients);
    let b = last.announce_events(m, client, clients);
    let es = ForeignView::bind_events(toplevels, m, client, clients);
    lemma_bind_addresses(rest, m, client, clients);
    lemma_announcement_teaches(last, m, client, clients, replay_laws::replay(k, a, h));
    lemma_replay_add(k, a, b, h);
    lemma_last_word_add(a, b, h);
    if t < n - 1 {
        lemma_bind_teaches(rest, m, client, clients, t, k);
        assert(d.surface != last.surface);
        lemma_unheard(replay_laws::replay(k, a, h), b, h);
        let x = a.index_of(EventView::WlrNew { handle: h });
        assert(es[x] == a[x]);
    } else {
        assert forall|x: int| 0 <= x < a.len() implies replay_laws::addressee(#[trigger] a[x])
            != Some(h) by {
            let y = choose|y: int|
                0 <= y < rest.len() && replay_laws::addressee(a[x]) == Some(
                    WlrHandle { manager: m, surface: (#[trigger] rest[y]).surface },
                );
            assert(toplevels[y].surface != toplevels[n - 1].surface);
        }
        lemma_unheard(k, a, h);
        assert(es[a.len() as int] == b[0]);
    }
}

/// A manager that binds is addressed, and no other.
pub(crate) proof fn lemma_bind_addresses(
    toplevels: Seq<DataView>,
    m: u64,
    client: u64,
    clients: ClientsView,
)
    ensures
        forall|x: int|
            0 <= x < ForeignView::bind_events(toplevels, m, client, clients).len() ==> exists|
                y: int,
            |
                0 <= y < toplevels.len() && replay_laws::addressee(
                    #[trigger] ForeignView::bind_events(toplevels, m, client, clients)[x],
                ) == Some(WlrHandle { manager: m, surface: (#[trigger] toplevels[y]).surface }),
    decreases toplevels.len(),
{
    if toplevels.len() > 0 {
        let rest = toplevels.drop_last();
        let last = toplevels.last();
        let n = toplevels.len() as int;
        lemma_bind_addresses(rest, m, client, clients);
        let a = ForeignView::bind_events(rest, m, client, clients);
        let b = last.announce_events(m, client, clients);
        let es = ForeignView::bind_events(toplevels, m, client, clients);
        lemma_announcement_teaches(
            last,
            m,
            client,
            clients,
            Knowledge {
                title: last.title,
                app_id: last.app_id,
                states: last.states,
                outputs: Seq::empty(),
            },
        );
        assert(toplevels[n - 1] == last);
        assert forall|x: int| 0 <= x < es.len() implies exists|y: int|
            0 <= y < toplevels.len() && replay_laws::addressee(#[trigger] es[x]) == Some(
                WlrHandle { manager: m, surface: (#[trigger] toplevels[y]).surface },
            ) by {
            if x < a.len() {
                assert(es[x] == a[x]);
                let y = choose|y: int|
                    0 <= y < rest.len() && replay_laws::addressee(a[x]) == Some(
                        WlrHandle { manager: m, surface: (#[trigger] rest[y]).surface },
                    );
                assert(toplevels[y] == rest[y]);
            } else {
                assert(es[x] == b[x - a.len()]);
                assert(replay_laws::addressee(es[x]) == Some(
                    WlrHandle { manager: m, surface: toplevels[n - 1].surface },
                ));
            }
        }
    }
}

/// A manager that binds hears of every listed toplevel what there is to know of it, and no other
/// manager hears anything. From then on the list holds the manager and its handles.
pub proof fn law_bind_teaches_everything(
    f: ForeignView,
    m: u64,
    client: u64,
    clients: ClientsView,
    t: int,
    before: Knowledge,
)
    requires
        f.wf(),
        0 <= t < f.toplevels.len(),
        before.outputs.len() == 0,
    ensures
        ({
            let g = f.bind(m, client, clients);
            let new = g.events.skip(f.events.len() as int);
            let d = f.toplevels[t];
            let h = WlrHandle { manager: m, surface: d.surface };
            let outputs = replay_laws::bound(clients.bindings, d.output, client);
            &&& f.events.is_prefix_of(g.events)
            &&& new.contains(EventView::WlrNew { handle: h })
            &&& replay_laws::replay(before, new, h) == (Knowledge {
                title: d.title,
                app_id: d.app_id,
                states: d.states,
                outputs,
            })
            &&& replay_laws::last_word(new, h) == Some(EventView::WlrDone { handle: h })
            &&& forall|x: int|
                0 <= x < new.len() ==> (replay_laws::addressee(#[trigger] new[x]) matches Some(a)
                    && a.manager == m)
            &&& g.managers == f.managers.push(Manager { id: m, client })
            &&& g.codes == f.codes
            &&& g.toplevels.len() == f.toplevels.len()
            &&& g.toplevels[t] == (DataView {
                instances: d.instances.push(InstanceView { handle: h, client, outputs }),
                ..d
            })
        }),
{
    let g = f.bind(m, client, clients);
    let es = ForeignView::bind_events(f.toplevels, m, client, clients);
    let new = g.events.skip(f.events.len() as int);
    let d = f.toplevels[t];
    assert(new =~= es);
    assert(f.events =~= g.events.take(f.events.len() as int));
    lemma_bind_teaches(f.toplevels, m, client, clients, t, before);
    lemma_bind_addresses(f.toplevels, m, client, clients);
    lemma_bound(clients, d.output, client);
    assert(before.outputs + replay_laws::bound(clients.bindings, d.output, client)
        =~= replay_laws::bound(clients.bindings, d.output, client));
}

/// The managers but for `m`.
pub open spec fn other_managers(managers: Seq<Manager>, m: u64) -> Seq<Manager>
    decreases managers.len(),
{
    if managers.len() == 0 {
        managers
    } else if managers.last().id == m {
        other_managers(managers.drop_last(), m)
    } else {
        other_managers(managers.drop_last(), m).push(managers.last())
    }
}

proof fn lemma_other_managers(managers: Seq<Manager>, m: u64)
    ensures
        managers.filter(|x: Manager| x.id != m) == other_managers(managers, m),
    decreases managers.len(),
{
    reveal(Seq::filter);
    if managers.len() > 0 {
        lemma_other_managers(managers.drop_last(), m);
    }
}

/// A manager that stops is told that it is finished and watches no more; it keeps its handles, and
/// the others watch on. One that is destroyed watches no more and is told nothing.
pub proof fn law_stopped_manager_watches_no_more(f: ForeignView, m: u64)
    ensures
        f.stop(m) == (ForeignView {
            managers: other_managers(f.managers, m),
            events: f.events.push(EventView::WlrFinished { manager: m }),
            ..f
        }),
        f.manager_destroyed(m) == (ForeignView {
            managers: other_managers(f.managers, m),
            ..f
        }),
{
    lemma_other_managers(f.managers, m);
}

/// The handles but for `h`.
pub open spec fn other_handles(instances: Seq<InstanceView>, h: WlrHandle) -> Seq<InstanceView>
    decreases instances.len(),
{
    if instances.len() == 0 {
        instances
    } else if instances.last().handle == h {
        other_handles(instances.drop_last(), h)
    } else {
        other_handles(instances.drop_last(), h).push(instances.last())
    }
}

proof fn lemma_other_handles(instances: Seq<InstanceView>, h: WlrHandle)
    ensures
        instances.filter(|i: InstanceView| i.handle != h) == other_handles(instances, h),
    decreases instances.len(),
{
    reveal(Seq::filter);
    if instances.len() > 0 {
        lemma_other_handles(instances.drop_last(), h);
    }
}

/// The events but for those to `h`.
pub open spec fn other_events(events: Seq<EventView>, h: WlrHandle) -> Seq<EventView>
    decreases events.len(),
{
    if events.len() == 0 {
        events
    } else if replay_laws::addressee(events.last()) == Some(h) {
        other_events(events.drop_last(), h)
    } else {
        other_events(events.drop_last(), h).push(events.last())
    }
}

proof fn lemma_other_events(events: Seq<EventView>, h: WlrHandle)
    ensures
        events.filter(|e: EventView| !e.concerns(h)) == other_events(events, h),
    decreases events.len(),
{
    reveal(Seq::filter);
    if events.len() > 0 {
        lemma_other_events(events.drop_last(), h);
    }
}

/// A handle that is gone is taken from its toplevel, and nothing else changes; if it could not be
/// created, what was to be told of it is dropped as well.
pub proof fn law_gone_handle_is_forgotten(f: ForeignView, h: WlrHandle, t: int)
    requires
        0 <= t < f.toplevels.len(),
    ensures
        ({
            let g = f.remove_wlr_instance(h);
            let r = f.retract(h);
            let d = DataView {
                instances: other_handles(f.toplevels[t].instances, h),
                ..f.toplevels[t]
            };
            &&& g == (ForeignView { toplevels: g.toplevels, ..f })
            &&& g.toplevels.len() == f.toplevels.len()
            &&& g.toplevels[t] == d
            &&& r == (ForeignView {
                toplevels: g.toplevels,
                events: other_events(f.events, h),
                ..f
            })
        }),
{
    lemma_other_handles(f.toplevels[t].instances, h);
    lemma_other_events(f.events, h);
}

/// Whether the bytes of `bytes` from `at` on are the number `n`, in one of the two orders.
pub open spec fn written_at(bytes: Seq<u8>, at: int, n: int) -> bool {
    &&& 0 <= at
    &&& at + 4 <= bytes.len()
    &&& bytes[at + 1] == 0
    &&& bytes[at + 2] == 0
    &&& bytes[at] == n && bytes[at + 3] == 0 || bytes[at] == 0 && bytes[at + 3] == n
}

/// Four bytes that encode a small number.
proof fn lemma_small_number(bytes: Seq<u8>, n: u32, lowest_first: bool)
    requires
        encoding::encodes(bytes, n, lowest_first),
        n < 256,
    ensures
        written_at(bytes, 0, n as int),
{
    assert(bytes.reverse()[0] == bytes[3]);
    assert(bytes.reverse()[1] == bytes[2]);
    assert(bytes.reverse()[2] == bytes[1]);
    assert(bytes.reverse()[3] == bytes[0]);
}

/// Whether `bytes` list just the states of a toplevel in `mode`, with or without the focus: maximized
/// is 0, fullscreen is 3, activated is 2 and comes last, and a floating one has no number.
pub open spec fn lists_states(bytes: Seq<u8>, mode: WindowMode, focused: bool) -> bool {
    let first = if mode == WindowMode::Floating {
        0int
    } else {
        4int
    };
    &&& bytes.len() == first + if focused {
        4int
    } else {
        0int
    }
    &&& mode == WindowMode::Maximized ==> written_at(bytes, 0, 0)
    &&& mode == WindowMode::Fullscreen ==> written_at(bytes, 0, 3)
    &&& focused ==> written_at(bytes, first, 2)
}

/// The payload for a toplevel lists just its states.
proof fn lemma_payload(codes: StateCodes, mode: WindowMode, focused: bool)
    requires
        codes.wf(),
    ensures
        lists_states(codes.payload(mode, focused), mode, focused),
{
    let lowest_first = codes.in_order(true);
    lemma_small_number(codes.maximized@, 0, lowest_first);
    lemma_small_number(codes.fullscreen@, 3, lowest_first);
    lemma_small_number(codes.activated@, 2, lowest_first);
}

/// After a refresh the list holds every live toplevel, with its title, its application and its
/// output, and with the states that its mode and the keyboard focus give it; and nothing of the
/// desktop has changed but the list.
pub proof fn law_refresh_follows_windows(
    s: StateView,
    order: Seq<u64>,
    clients: ClientsView,
    w: u64,
)
    requires
        s.wf(),
        refresh::is_walk(order, s.toplevels),
    ensures
        ({
            let t = s.foreign_toplevel_refresh(order, clients);
            let listed = exists|x: int|
                0 <= x < t.foreign.toplevels.len() && (#[trigger] t.foreign.toplevels[x]).surface
                    == w;
            &&& t == (StateView { foreign: t.foreign, ..s })
            &&& listed <==> s.toplevels.contains_key(w) && s.windows[w].alive
            &&& listed ==> exists|x: int|
                0 <= x < t.foreign.toplevels.len() && {
                    let d = #[trigger] t.foreign.toplevels[x];
                    &&& d.surface == w
                    &&& d.title == s.windows[w].title@
                    &&& d.app_id == s.windows[w].app_id@
                    &&& d.output == s.windows[w].output
                    &&& lists_states(d.states, s.toplevels[w].mode, s.keyboard_focus == Some(w))
                }
        }),
{
    let snaps = s.snapshots(order);
    let t = s.foreign_toplevel_refresh(order, clients);
    law_focused_comes_last(s, order);
    law_list_mirrors_windows(s.foreign, snaps, clients);
    assert(t.foreign.knows(w) <==> manager::listed(snaps, w));
    if t.foreign.knows(w) {
        let j = choose|j: int| 0 <= j < snaps.len() && (#[trigger] snaps[j]).surface == w;
        assert(snaps[j] == s.snapshot(w));
        assert(t.foreign.told(w).says(snaps[j]));
        let x = manager::index_of(t.foreign.toplevels, w);
        assert(t.foreign.toplevels[x] == t.foreign.told(w));
        lemma_payload(s.foreign.codes, s.toplevels[w].mode, s.keyboard_focus == Some(w));
    }
}

/// A number can be given to a new manager just if no manager and no handle has it.
pub proof fn law_fresh_numbers(f: ForeignView, m: u64)
    ensures
        f.is_fresh(m) <==> {
            &&& forall|k: int| 0 <= k < f.managers.len() ==> (#[trigger] f.managers[k]).id != m
            &&& forall|t: int, k: int|
                #![trigger f.toplevels[t].instances[k]]
                0 <= t < f.toplevels.len() && 0 <= k < f.toplevels[t].instances.len()
                    ==> f.toplevels[t].instances[k].handle.manager != m
        },
{
}

/// A list is in order just if no toplevel, no manager and no handle is there twice, every toplevel is
/// in the ext list under its own number, every handle is one of its toplevel, and the states are
/// encoded in one byte order.
pub proof fn law_order_of_list(f: ForeignView)
    ensures
        f.wf() <==> {
            &&& forall|i: int, j: int|
                #![trigger f.toplevels[i], f.toplevels[j]]
                0 <= i < j < f.toplevels.len() ==> f.toplevels[i].surface
                    != f.toplevels[j].surface
            &&& forall|i: int, j: int|
                #![trigger f.managers[i], f.managers[j]]
                0 <= i < j < f.managers.len() ==> f.managers[i].id != f.managers[j].id
            &&& forall|t: int|
                0 <= t < f.toplevels.len() ==> (#[trigger] f.toplevels[t]).ext_handle == Some(
                    f.toplevels[t].surface,
                )
            &&& forall|t: int, k: int|
                #![trigger f.toplevels[t].instances[k]]
                0 <= t < f.toplevels.len() && 0 <= k < f.toplevels[t].instances.len()
                    ==> f.toplevels[t].instances[k].handle.surface == f.toplevels[t].surface
            &&& forall|t: int, k: int, l: int|
                #![trigger f.toplevels[t].instances[k], f.toplevels[t].instances[l]]
                0 <= t < f.toplevels.len() && 0 <= k < l < f.toplevels[t].instances.len()
                    ==> f.toplevels[t].instances[k].handle != f.toplevels[t].instances[l].handle
            &&& f.codes.wf()
        },
{
    if f.wf() {
        assert forall|t: int, k: int, l: int|
            #![trigger f.toplevels[t].instances[k], f.toplevels[t].instances[l]]
            0 <= t < f.toplevels.len() && 0 <= k < l
                < f.toplevels[t].instances.len() implies f.toplevels[t].instances[k].handle
            != f.toplevels[t].instances[l].handle by {
            assert(f.toplevels[t].owns_handles());
        }
        assert forall|t: int, k: int|
            #![trigger f.toplevels[t].instances[k]]
            0 <= t < f.toplevels.len() && 0 <= k
                < f.toplevels[t].instances.len() implies f.toplevels[t].instances[k].handle.surface
            == f.toplevels[t].surface by {
            assert(f.toplevels[t].owns_handles());
        }
    }
}

} // verus!
