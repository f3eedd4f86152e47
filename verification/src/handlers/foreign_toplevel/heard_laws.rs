//! What exactly each handle and the ext list hear, and in which order.

use vstd::prelude::*;
use crate::handlers::foreign_toplevel::announce;
use crate::handlers::foreign_toplevel::data::{
    ClientsView, DataView, EventView, Manager, SnapshotView, WlrHandle,
};
use crate::handlers::foreign_toplevel::laws;
use crate::handlers::foreign_toplevel::laws::{
    lemma_refresh_all, lemma_refresh_all_closes_none,
};
use crate::handlers::foreign_toplevel::list_laws::lemma_bind_addresses;
use crate::handlers::foreign_toplevel::manager;
use crate::handlers::foreign_toplevel::manager::{lemma_index, lemma_remaining, ForeignView};
use crate::handlers::foreign_toplevel::replay_laws;
use crate::handlers::foreign_toplevel::replay_laws::{
    lemma_announced_addresses, lemma_bound, lemma_instance_addresses, lemma_not_addressed,
    lemma_refresh_parts, lemma_step,
};

verus! {

/// Those of `events` that are about the handle `h`.
pub open spec fn heard(events: Seq<EventView>, h: WlrHandle) -> Seq<EventView>
    decreases events.len(),
{
    if events.len() == 0 {
        events
    } else if replay_laws::addressee(events.last()) == Some(h) {
        heard(events.drop_last(), h).push(events.last())
    } else {
        heard(events.drop_last(), h)
    }
}

/// Whether an event is about the entry `s` of the ext list.
pub open spec fn about_entry(e: EventView, s: u64) -> bool {
    match e {
        EventView::ExtNew { surface, .. } => surface == s,
        EventView::ExtTitle { surface, .. } => surface == s,
        EventView::ExtAppId { surface, .. } => surface == s,
        EventView::ExtDone { surface } => surface == s,
        EventView::ExtClosed { surface } => surface == s,
        _ => false,
    }
}

/// Those of `events` that are about the entry `s` of the ext list.
pub open spec fn heard_of_entry(events: Seq<EventView>, s: u64) -> Seq<EventView>
    decreases events.len(),
{
    if events.len() == 0 {
        events
    } else if about_entry(events.last(), s) {
        heard_of_entry(events.drop_last(), s).push(events.last())
    } else {
        heard_of_entry(events.drop_last(), s)
    }
}

/// `e` if `b`, else nothing.
pub open spec fn only_if(b: bool, e: EventView) -> Seq<EventView> {
    if b {
        seq![e]
    } else {
        Seq::empty()
    }
}

/// The handle `h` told that it left `outputs`, one after the other.
pub open spec fn told_left(h: WlrHandle, outputs: Seq<u64>) -> Seq<EventView> {
    Seq::new(
        outputs.len(),
        |k: int| EventView::WlrOutputLeave { handle: h, output: outputs[k] },
    )
}

/// The handle `h` told that it entered `outputs`, one after the other.
pub open spec fn told_entered(h: WlrHandle, outputs: Seq<u64>) -> Seq<EventView> {
    Seq::new(
        outputs.len(),
        |k: int| EventView::WlrOutputEnter { handle: h, output: outputs[k] },
    )
}

proof fn lemma_heard_add(a: Seq<EventView>, b: Seq<EventView>, h: WlrHandle)
    ensures
        heard(a + b, h) == heard(a, h) + heard(b, h),
    decreases b.len(),
{
    if b.len() == 0 {
        assert(a + b =~= a);
        assert(heard(a, h) + heard(b, h) =~= heard(a, h));
    } else {
        lemma_heard_add(a, b.drop_last(), h);
        assert((a + b).drop_last() =~= a + b.drop_last());
        assert((a + b).last() == b.last());
        assert(heard(a + b, h) =~= heard(a, h) + heard(b, h));
    }
}

proof fn lemma_heard_none(events: Seq<EventView>, h: WlrHandle)
    requires
        forall|x: int|
            0 <= x < events.len() ==> replay_laws::addressee(#[trigger] events[x]) != Some(h),
    ensures
        heard(events, h) == Seq::<EventView>::empty(),
    decreases events.len(),
{
    if events.len() > 0 {
        let rest = events.drop_last();
        assert(forall|x: int| 0 <= x < rest.len() ==> #[trigger] rest[x] == events[x]);
        lemma_heard_none(rest, h);
        assert(replay_laws::addressee(events[events.len() - 1]) != Some(h));
    }
}

proof fn lemma_heard_all(events: Seq<EventView>, h: WlrHandle)
    requires
        forall|x: int|
            0 <= x < events.len() ==> replay_laws::addressee(#[trigger] events[x]) == Some(h),
    ensures
        heard(events, h) == events,
    decreases events.len(),
{
    if events.len() > 0 {
        let rest = events.drop_last();
        assert(forall|x: int| 0 <= x < rest.len() ==> #[trigger] rest[x] == events[x]);
        lemma_heard_all(rest, h);
        assert(replay_laws::addressee(events[events.len() - 1]) == Some(h));
        assert(rest.push(events.last()) =~= events);
    }
}

proof fn lemma_entry_add(a: Seq<EventView>, b: Seq<EventView>, s: u64)
    ensures
        heard_of_entry(a + b, s) == heard_of_entry(a, s) + heard_of_entry(b, s),
    decreases b.len(),
{
    if b.len() == 0 {
        assert(a + b =~= a);
        assert(heard_of_entry(a, s) + heard_of_entry(b, s) =~= heard_of_entry(a, s));
    } else {
        lemma_entry_add(a, b.drop_last(), s);
        assert((a + b).drop_last() =~= a + b.drop_last());
        assert((a + b).last() == b.last());
        assert(heard_of_entry(a + b, s) =~= heard_of_entry(a, s) + heard_of_entry(b, s));
    }
}

proof fn lemma_entry_none(events: Seq<EventView>, s: u64)
    requires
        forall|x: int| 0 <= x < events.len() ==> !about_entry(#[trigger] events[x], s),
    ensures
        heard_of_entry(events, s) == Seq::<EventView>::empty(),
    decreases events.len(),
{
    if events.len() > 0 {
        let rest = events.drop_last();
        assert(forall|x: int| 0 <= x < rest.len() ==> #[trigger] rest[x] == events[x]);
        lemma_entry_none(rest, s);
        assert(!about_entry(events[events.len() - 1], s));
    }
}

proof fn lemma_entry_all(events: Seq<EventView>, s: u64)
    requires
        forall|x: int| 0 <= x < events.len() ==> about_entry(#[trigger] events[x], s),
    ensures
        heard_of_entry(events, s) == events,
    decreases events.len(),
{
    if events.len() > 0 {
        let rest = events.drop_last();
        assert(forall|x: int| 0 <= x < rest.len() ==> #[trigger] rest[x] == events[x]);
        lemma_entry_all(rest, s);
        assert(about_entry(events[events.len() - 1], s));
        assert(rest.push(events.last()) =~= events);
    }
}

/// What the first `n` handles of a toplevel say of a change, heard through one of them.
proof fn lemma_handles_heard(
    d: DataView,
    n: int,
    i: int,
    snap: SnapshotView,
    clients: ClientsView,
)
    requires
        d.owns_handles(),
        0 <= n <= d.instances.len(),
        0 <= i < d.instances.len(),
    ensures
        heard(d.wlr_update_events(n, snap, clients), d.instances[i].handle) == if i < n {
            d.instance_update_events(d.instances[i], snap, clients)
        } else {
            Seq::empty()
        },
    decreases n,
{
    let h = d.instances[i].handle;
    if n > 0 {
        lemma_handles_heard(d, n - 1, i, snap, clients);
        let a = d.wlr_update_events(n - 1, snap, clients);
        let b = d.instance_update_events(d.instances[n - 1], snap, clients);
        lemma_instance_addresses(d, n - 1, snap, clients);
        lemma_heard_add(a, b, h);
        if i == n - 1 {
            lemma_heard_all(b, h);
            assert(Seq::<EventView>::empty() + b =~= b);
        } else {
            assert(d.instances[n - 1].handle != h);
            lemma_heard_none(b, h);
            assert(heard(a, h) + Seq::<EventView>::empty() =~= heard(a, h));
        }
    }
}

/// What is heard of a toplevel in a refresh is heard while it is brought up to date.
proof fn lemma_heard_in_step(
    f: ForeignView,
    snaps: Seq<SnapshotView>,
    clients: ClientsView,
    j: int,
    h: WlrHandle,
)
    requires
        f.wf(),
        replay_laws::one_each(snaps),
        0 <= j < snaps.len(),
        h.surface == snaps[j].surface,
    ensures
        heard(replay_laws::news(f, snaps, clients), h) == heard(
            replay_laws::step(f, snaps[j], clients),
            h,
        ),
        heard_of_entry(replay_laws::news(f, snaps, clients), h.surface) == heard_of_entry(
            replay_laws::step(f, snaps[j], clients),
            h.surface,
        ),
{
    assert(manager::snapshots_distinct(snaps));
    let (a, b) = lemma_refresh_parts(f, snaps, clients, j);
    let x = replay_laws::step(f, snaps[j], clients);
    let new = replay_laws::news(f, snaps, clients);
    let s = h.surface;
    assert(new =~= a + x + b);
    lemma_not_addressed(a, h);
    lemma_not_addressed(b, h);
    lemma_heard_none(a, h);
    lemma_heard_none(b, h);
    lemma_heard_add(a + x, b, h);
    lemma_heard_add(a, x, h);
    assert(Seq::<EventView>::empty() + heard(x, h) + Seq::<EventView>::empty() =~= heard(x, h));
    assert forall|k: int| 0 <= k < a.len() implies !about_entry(#[trigger] a[k], s) by {
        assert(replay_laws::subject(a[k]) != Some(s));
    }
    assert forall|k: int| 0 <= k < b.len() implies !about_entry(#[trigger] b[k], s) by {
        assert(replay_laws::subject(b[k]) != Some(s));
    }
    lemma_entry_none(a, s);
    lemma_entry_none(b, s);
    lemma_entry_add(a + x, b, s);
    lemma_entry_add(a, x, s);
    assert(Seq::<EventView>::empty() + heard_of_entry(x, s) + Seq::<EventView>::empty()
        =~= heard_of_entry(x, s));
}

/// In a refresh a handle of a listed toplevel hears just what changed, each of it once, and then once
/// that this is all: the title, the application, the states, the outputs that were left and those
/// that were entered. Where nothing changed, it hears nothing.
pub proof fn law_changes_are_told_once(
    f: ForeignView,
    snaps: Seq<SnapshotView>,
    clients: ClientsView,
    t: int,
    i: int,
    j: int,
)
    requires
        f.wf(),
        replay_laws::one_each(snaps),
        0 <= t < f.toplevels.len(),
        0 <= i < f.toplevels[t].instances.len(),
        0 <= j < snaps.len(),
        snaps[j].surface == f.toplevels[t].surface,
    ensures
        ({
            let d = f.toplevels[t];
            let snap = snaps[j];
            let h = d.instances[i].handle;
            heard(replay_laws::news(f, snaps, clients), h) == if d.title == snap.title && d.app_id
                == snap.app_id && d.states == snap.states && d.output == snap.output {
                Seq::empty()
            } else {
                only_if(
                    d.title != snap.title,
                    EventView::WlrTitle { handle: h, title: snap.title },
                ) + only_if(
                    d.app_id != snap.app_id,
                    EventView::WlrAppId { handle: h, app_id: snap.app_id },
                ) + only_if(
                    d.states != snap.states,
                    EventView::WlrState { handle: h, states: snap.states },
                ) + (if d.output != snap.output {
                    told_left(h, d.instances[i].outputs) + told_entered(
                        h,
                        if clients.live.contains(d.instances[i].client) {
                            replay_laws::bound(
                                clients.bindings,
                                snap.output,
                                d.instances[i].client,
                            )
                        } else {
                            Seq::empty()
                        },
                    )
                } else {
                    Seq::empty()
                }) + seq![EventView::WlrDone { handle: h }]
            }
        }),
{
    let d = f.toplevels[t];
    let snap = snaps[j];
    let inst = d.instances[i];
    let h = inst.handle;
    assert(d.owns_handles());
    lemma_heard_in_step(f, snaps, clients, j, h);
    lemma_index(f.toplevels, t);
    assert(f.told(d.surface) == d);
    let x = replay_laws::step(f, snap, clients);
    assert(x == d.update_events(snap, clients));
    if d.outdated(snap) {
        let a = d.ext_update_events(snap);
        let n = d.instances.len() as int;
        let b = d.wlr_update_events(n, snap, clients);
        lemma_heard_add(a, b, h);
        assert(forall|k: int|
            0 <= k < a.len() ==> replay_laws::addressee(#[trigger] a[k]) is None);
        lemma_heard_none(a, h);
        lemma_handles_heard(d, n, i, snap, clients);
        lemma_bound(clients, snap.output, inst.client);
        let entered = clients.live_client_outputs(snap.output, inst.client);
        assert(announce::leaves(h, inst.outputs) =~= told_left(h, inst.outputs));
        assert(announce::enters(h, entered) =~= told_entered(h, entered));
        let c = d.instance_update_events(inst, snap, clients);
        assert(Seq::<EventView>::empty() + c =~= c);
    }
}

/// In a refresh the entry of a listed toplevel in the ext list says just what changed of its title
/// and its application, and then once that this is all; if neither changed, it says nothing.
pub proof fn law_entry_changes_are_told_once(
    f: ForeignView,
    snaps: Seq<SnapshotView>,
    clients: ClientsView,
    t: int,
    j: int,
)
    requires
        f.wf(),
        replay_laws::one_each(snaps),
        0 <= t < f.toplevels.len(),
        0 <= j < snaps.len(),
        snaps[j].surface == f.toplevels[t].surface,
    ensures
        ({
            let d = f.toplevels[t];
            let snap = snaps[j];
            let s = snap.surface;
            heard_of_entry(replay_laws::news(f, snaps, clients), s) == if d.title == snap.title
                && d.app_id == snap.app_id {
                Seq::empty()
            } else {
                only_if(
                    d.title != snap.title,
                    EventView::ExtTitle { surface: s, title: snap.title },
                ) + only_if(
                    d.app_id != snap.app_id,
                    EventView::ExtAppId { surface: s, app_id: snap.app_id },
                ) + seq![EventView::ExtDone { surface: s }]
            }
        }),
{
    let d = f.toplevels[t];
    let snap = snaps[j];
    let s = snap.surface;
    assert(d.owns_handles());
    lemma_heard_in_step(f, snaps, clients, j, WlrHandle { manager: 0, surface: s });
    lemma_index(f.toplevels, t);
    let x = replay_laws::step(f, snap, clients);
    assert(x == d.update_events(snap, clients));
    if d.outdated(snap) {
        let a = d.ext_update_events(snap);
        let n = d.instances.len() as int;
        let b = d.wlr_update_events(n, snap, clients);
        lemma_entry_add(a, b, s);
        lemma_entry_all(a, s);
        lemma_handles_say_nothing_of_entries(d, n, snap, clients, s);
        assert(a + Seq::<EventView>::empty() =~= a);
    }
}

proof fn lemma_handles_say_nothing_of_entries(
    d: DataView,
    n: int,
    snap: SnapshotView,
    clients: ClientsView,
    s: u64,
)
    requires
        0 <= n <= d.instances.len(),
    ensures
        heard_of_entry(d.wlr_update_events(n, snap, clients), s) == Seq::<EventView>::empty(),
    decreases n,
{
    if n > 0 {
        lemma_handles_say_nothing_of_entries(d, n - 1, snap, clients, s);
        let a = d.wlr_update_events(n - 1, snap, clients);
        let b = d.instance_update_events(d.instances[n - 1], snap, clients);
        lemma_instance_addresses(d, n - 1, snap, clients);
        lemma_entry_add(a, b, s);
        assert forall|k: int| 0 <= k < b.len() implies !about_entry(#[trigger] b[k], s) by {
            assert(replay_laws::addressee(b[k]) is Some);
        }
        lemma_entry_none(b, s);
    }
}

/// What a manager hears when a toplevel is announced to all.
proof fn lemma_announcement_heard(
    d: DataView,
    managers: Seq<Manager>,
    clients: ClientsView,
    i: int,
)
    requires
        manager::managers_distinct(managers),
        0 <= i < managers.len(),
    ensures
        heard(
            d.announce_all_events(managers, clients),
            WlrHandle { manager: managers[i].id, surface: d.surface },
        ) == if clients.live.contains(managers[i].client) {
            d.announce_events(managers[i].id, managers[i].client, clients)
        } else {
            Seq::empty()
        },
    decreases managers.len(),
{
    let h = WlrHandle { manager: managers[i].id, surface: d.surface };
    let rest = managers.drop_last();
    let last = managers.last();
    let n = managers.len() as int;
    assert(managers[n - 1] == last);
    assert(forall|x: int| 0 <= x < rest.len() ==> #[trigger] rest[x] == managers[x]);
    assert(manager::managers_distinct(rest));
    let a = d.announce_all_events(rest, clients);
    let b = d.announce_events(last.id, last.client, clients);
    let other = WlrHandle { manager: last.id, surface: d.surface };
    assert forall|x: int| 0 <= x < b.len() implies replay_laws::addressee(#[trigger] b[x]) == Some(
        other,
    ) by {}
    lemma_heard_add(a, b, h);
    if i < n - 1 {
        lemma_announcement_heard(d, rest, clients, i);
        assert(managers[i].id != managers[n - 1].id);
        lemma_heard_none(b, h);
        assert(heard(a, h) + Seq::<EventView>::empty() =~= heard(a, h));
    } else {
        lemma_announced_addresses(d, rest, clients);
        assert forall|x: int| 0 <= x < a.len() implies replay_laws::addressee(#[trigger] a[x])
            != Some(h) by {
            let m = choose|m: int|
                0 <= m < rest.len() && replay_laws::addressee(a[x]) == Some(
                    WlrHandle { manager: (#[trigger] rest[m]).id, surface: d.surface },
                );
            assert(managers[m].id != managers[n - 1].id);
        }
        lemma_heard_none(a, h);
        lemma_heard_all(b, h);
        assert(Seq::<EventView>::empty() + b =~= b);
    }
}

/// A toplevel that appears is told once to the ext list, and once to each manager that watches and
/// whose client is connected: that it is there, its title, its application, its states and its
/// outputs, and that this is all.
pub proof fn law_new_toplevels_are_told_once(
    f: ForeignView,
    snaps: Seq<SnapshotView>,
    clients: ClientsView,
    j: int,
    m: int,
)
    requires
        f.wf(),
        replay_laws::one_each(snaps),
        0 <= j < snaps.len(),
        0 <= m < f.managers.len(),
        forall|t: int|
            0 <= t < f.toplevels.len() ==> (#[trigger] f.toplevels[t]).surface != snaps[j].surface,
    ensures
        ({
            let snap = snaps[j];
            let h = WlrHandle { manager: f.managers[m].id, surface: snap.surface };
            let new = replay_laws::news(f, snaps, clients);
            &&& heard_of_entry(new, snap.surface) == seq![
                EventView::ExtNew {
                    surface: snap.surface,
                    title: snap.title,
                    app_id: snap.app_id,
                },
            ]
            &&& heard(new, h) == if clients.live.contains(f.managers[m].client) {
                seq![
                    EventView::WlrNew { handle: h },
                    EventView::WlrTitle { handle: h, title: snap.title },
                    EventView::WlrAppId { handle: h, app_id: snap.app_id },
                    EventView::WlrState { handle: h, states: snap.states },
                ] + told_entered(
                    h,
                    replay_laws::bound(clients.bindings, snap.output, f.managers[m].client),
                ) + seq![EventView::WlrDone { handle: h }]
            } else {
                Seq::empty()
            }
        }),
{
    let snap = snaps[j];
    let s = snap.surface;
    let client = f.managers[m].client;
    let h = WlrHandle { manager: f.managers[m].id, surface: s };
    let d = snap.unannounced();
    lemma_heard_in_step(f, snaps, clients, j, h);
    assert(!f.knows(s));
    let e = EventView::ExtNew { surface: s, title: snap.title, app_id: snap.app_id };
    let rest = d.announce_all_events(f.managers, clients);
    assert(replay_laws::step(f, snap, clients) == seq![e] + rest);
    lemma_heard_add(seq![e], rest, h);
    assert(forall|k: int|
        0 <= k < seq![e].len() ==> replay_laws::addressee(#[trigger] seq![e][k]) is None);
    lemma_heard_none(seq![e], h);
    lemma_announcement_heard(d, f.managers, clients, m);
    assert(Seq::<EventView>::empty() + heard(rest, h) =~= heard(rest, h));
    lemma_bound(clients, snap.output, client);
    let outputs = clients.client_outputs(snap.output, client);
    assert(announce::enters(h, outputs) =~= told_entered(h, outputs));
    lemma_entry_add(seq![e], rest, s);
    assert(forall|k: int| 0 <= k < seq![e].len() ==> about_entry(#[trigger] seq![e][k], s));
    lemma_entry_all(seq![e], s);
    lemma_announced_addresses(d, f.managers, clients);
    assert forall|k: int| 0 <= k < rest.len() implies !about_entry(#[trigger] rest[k], s) by {
        let y = choose|y: int|
            0 <= y < f.managers.len() && replay_laws::addressee(rest[k]) == Some(
                WlrHandle { manager: (#[trigger] f.managers[y]).id, surface: d.surface },
            );
        assert(replay_laws::addressee(rest[k]) is Some);
    }
    lemma_entry_none(rest, s);
    assert(seq![e] + Seq::<EventView>::empty() =~= seq![e]);
}

/// In a refresh what is gone is told first, before anything of what is there.
pub proof fn law_gone_is_told_first(
    f: ForeignView,
    snaps: Seq<SnapshotView>,
    clients: ClientsView,
    a: int,
    b: int,
)
    requires
        0 <= a < b < replay_laws::news(f, snaps, clients).len(),
        replay_laws::news(f, snaps, clients)[b] is ExtClosed || replay_laws::news(
            f,
            snaps,
            clients,
        )[b] is WlrClosed,
    ensures
        replay_laws::news(f, snaps, clients)[a] is ExtClosed || replay_laws::news(
            f,
            snaps,
            clients,
        )[a] is WlrClosed,
{
    let c = f.close_gone(snaps);
    let gone = manager::gone_events(f.toplevels, snaps);
    let g = f.apply(snaps, clients);
    let new = replay_laws::news(f, snaps, clients);
    let n = f.events.len() as int;
    lemma_refresh_all_closes_none(c, snaps, clients);
    assert(new[b] == g.events[n + b]);
    assert(new[a] == g.events[n + a]);
    assert(laws::says_closed(g.events[n + b]));
    assert(n + b < c.events.len());
    assert(g.events.take(c.events.len() as int) =~= c.events);
    assert(g.events[n + a] == g.events.take(c.events.len() as int)[n + a]);
    assert(g.events[n + a] == gone[a]);
    lemma_gone_are_closings(f.toplevels, snaps);
    assert(laws::says_closed(gone[a]));
}

proof fn lemma_gone_are_closings(toplevels: Seq<DataView>, snaps: Seq<SnapshotView>)
    ensures
        forall|x: int|
            0 <= x < manager::gone_events(toplevels, snaps).len() ==> laws::says_closed(
                #[trigger] manager::gone_events(toplevels, snaps)[x],
            ),
    decreases toplevels.len(),
{
    if toplevels.len() > 0 {
        let rest = toplevels.drop_last();
        lemma_gone_are_closings(rest, snaps);
        let a = manager::gone_events(rest, snaps);
        let b = toplevels.last().close_events();
        let all = manager::gone_events(toplevels, snaps);
        assert forall|x: int| 0 <= x < b.len() implies laws::says_closed(#[trigger] b[x]) by {}
        assert forall|x: int| 0 <= x < all.len() implies laws::says_closed(#[trigger] all[x]) by {
            if x < a.len() {
                assert(all[x] == a[x]);
            } else {
                assert(all[x] == b[x - a.len()]);
            }
        }
    }
}

/// The events of toplevels that are brought up to date come in the order of the toplevels.
proof fn lemma_in_order(f: ForeignView, snaps: Seq<SnapshotView>, clients: ClientsView)
    requires
        f.wf(),
        manager::snapshots_distinct(snaps),
    ensures
        ({
            let new = f.refresh_all(snaps, clients).events.skip(f.events.len() as int);
            &&& f.events.is_prefix_of(f.refresh_all(snaps, clients).events)
            &&& forall|x: int| 0 <= x < new.len() ==> spoken_of(snaps, #[trigger] new[x])
            &&& forall|a: int, b: int, j: int, k: int|
                #![trigger new[a], new[b], snaps[j], snaps[k]]
                0 <= a < b < new.len() && 0 <= j < snaps.len() && 0 <= k < snaps.len()
                    && replay_laws::subject(new[a]) == Some(snaps[j].surface)
                    && replay_laws::subject(new[b]) == Some(snaps[k].surface) ==> j <= k
        }),
    decreases snaps.len(),
{
    let n = snaps.len() as int;
    let e = f.events.len() as int;
    if n > 0 {
        let rest = snaps.drop_last();
        let last = snaps.last();
        assert(snaps[n - 1] == last);
        assert(forall|i: int| 0 <= i < rest.len() ==> #[trigger] rest[i] == snaps[i]);
        assert(manager::snapshots_distinct(rest));
        lemma_in_order(f, rest, clients);
        lemma_refresh_all(f, rest, clients);
        let r = f.refresh_all(rest, clients);
        lemma_step(r, last, clients);
        let old = r.events.skip(e);
        let x = replay_laws::step(r, last, clients);
        let g = f.refresh_all(snaps, clients);
        let new = g.events.skip(e);
        assert(f.events =~= g.events.take(e)) by {
            assert(r.events.take(e) =~= f.events);
        }
        assert(new =~= old + x);
        assert forall|i: int| 0 <= i < new.len() implies spoken_of(snaps, #[trigger] new[i]) by {
            if i < old.len() {
                assert(new[i] == old[i]);
                let j = choose|j: int|
                    0 <= j < rest.len() && replay_laws::subject(old[i]) == Some(
                        (#[trigger] rest[j]).surface,
                    );
                assert(snaps[j] == rest[j]);
            } else {
                assert(new[i] == x[i - old.len()]);
                assert(replay_laws::subject(new[i]) == Some(snaps[n - 1].surface));
            }
        }
        assert forall|a: int, b: int, j: int, k: int|
            #![trigger new[a], new[b], snaps[j], snaps[k]]
            0 <= a < b < new.len() && 0 <= j < snaps.len() && 0 <= k < snaps.len()
                && replay_laws::subject(new[a]) == Some(snaps[j].surface)
                && replay_laws::subject(new[b]) == Some(snaps[k].surface) implies j <= k by {
            if b >= old.len() {
                assert(new[b] == x[b - old.len()]);
                assert(snaps[k].surface == snaps[n - 1].surface);
                assert(k == n - 1);
            } else {
                assert(new[a] == old[a]);
                assert(new[b] == old[b]);
                assert(spoken_of(rest, old[a]));
                assert(spoken_of(rest, old[b]));
                let p = choose|p: int|
                    0 <= p < rest.len() && replay_laws::subject(old[a]) == Some(
                        (#[trigger] rest[p]).surface,
                    );
                let q = choose|q: int|
                    0 <= q < rest.len() && replay_laws::subject(old[b]) == Some(
                        (#[trigger] rest[q]).surface,
                    );
                assert(snaps[p].surface == snaps[j].surface);
                assert(snaps[q].surface == snaps[k].surface);
                assert(rest[j] == snaps[j] && rest[k] == snaps[k]);
            }
        }
    } else {
        assert(f.events =~= f.events.take(e));
    }
}

/// Whether an event is about the toplevel of one of the snapshots.
spec fn spoken_of(snaps: Seq<SnapshotView>, e: EventView) -> bool {
    exists|j: int|
        0 <= j < snaps.len() && replay_laws::subject(e) == Some((#[trigger] snaps[j]).surface)
}

/// In a refresh the toplevels are spoken of in the order of their snapshots.
pub proof fn law_news_come_in_order(
    f: ForeignView,
    snaps: Seq<SnapshotView>,
    clients: ClientsView,
    a: int,
    b: int,
    j: int,
    k: int,
)
    requires
        f.wf(),
        replay_laws::one_each(snaps),
        0 <= a < b < replay_laws::news(f, snaps, clients).len(),
        0 <= j < snaps.len(),
        0 <= k < snaps.len(),
        replay_laws::subject(replay_laws::news(f, snaps, clients)[a]) == Some(snaps[j].surface),
        replay_laws::subject(replay_laws::news(f, snaps, clients)[b]) == Some(snaps[k].surface),
    ensures
        j <= k,
{
    let c = f.close_gone(snaps);
    let gone = manager::gone_events(f.toplevels, snaps);
    let new = replay_laws::news(f, snaps, clients);
    let n = f.events.len() as int;
    assert(manager::snapshots_distinct(snaps));
    lemma_remaining(f.toplevels, snaps);
    assert forall|i: int| 0 <= i < c.toplevels.len() implies (
    #[trigger] c.toplevels[i]).owns_handles() by {
        let x = manager::index_of(f.toplevels, c.toplevels[i].surface);
        assert(f.toplevels[x].owns_handles());
    }
    assert(c.wf());
    lemma_in_order(c, snaps, clients);
    let r = c.refresh_all(snaps, clients);
    let later = r.events.skip(c.events.len() as int);
    assert(new =~= gone + later) by {
        assert(r.events.take(c.events.len() as int) =~= c.events);
        assert(r.events =~= c.events + later);
    }
    replay_laws::lemma_gone_subjects(f.toplevels, snaps, snaps[j].surface);
    assert(a >= gone.len()) by {
        if a < gone.len() {
            assert(new[a] == gone[a]);
        }
    }
    assert(new[a] == later[a - gone.len()]);
    assert(new[b] == later[b - gone.len()]);
}

/// What a manager that binds hears of the `t`th toplevel.
proof fn lemma_bind_heard(
    toplevels: Seq<DataView>,
    m: u64,
    client: u64,
    clients: ClientsView,
    t: int,
)
    requires
        manager::toplevels_distinct(toplevels),
        0 <= t < toplevels.len(),
    ensures
        heard(
            ForeignView::bind_events(toplevels, m, client, clients),
            WlrHandle { manager: m, surface: toplevels[t].surface },
        ) == toplevels[t].announce_events(m, client, clients),
    decreases toplevels.len(),
{
    let h = WlrHandle { manager: m, surface: toplevels[t].surface };
    let rest = toplevels.drop_last();
    let last = toplevels.last();
    let n = toplevels.len() as int;
    assert(toplevels[n - 1] == last);
    assert(forall|x: int| 0 <= x < rest.len() ==> #[trigger] rest[x] == toplevels[x]);
    assert(manager::toplevels_distinct(rest));
    let a = ForeignView::bind_events(rest, m, client, clients);
    let b = last.announce_events(m, client, clients);
    let other = WlrHandle { manager: m, surface: last.surface };
    assert forall|x: int| 0 <= x < b.len() implies replay_laws::addressee(#[trigger] b[x]) == Some(
        other,
    ) by {}
    lemma_heard_add(a, b, h);
    if t < n - 1 {
        lemma_bind_heard(rest, m, client, clients, t);
        assert(toplevels[t].surface != last.surface);
        lemma_heard_none(b, h);
        assert(heard(a, h) + Seq::<EventView>::empty() =~= heard(a, h));
    } else {
        lemma_bind_addresses(rest, m, client, clients);
        assert forall|x: int| 0 <= x < a.len() implies replay_laws::addressee(#[trigger] a[x])
            != Some(h) by {
            let y = choose|y: int|
                0 <= y < rest.len() && replay_laws::addressee(a[x]) == Some(
                    WlrHandle { manager: m, surface: (#[trigger] rest[y]).surface },
                );
            assert(toplevels[y].surface != toplevels[n - 1].surface);
        }
        lemma_heard_none(a, h);
        lemma_heard_all(b, h);
        assert(Seq::<EventView>::empty() + b =~= b);
    }
}

/// A manager that binds hears of every listed toplevel once: that it is there, its title, its
/// application, its states and its outputs, and that this is all.
pub proof fn law_bind_tells_once(
    f: ForeignView,
    m: u64,
    client: u64,
    clients: ClientsView,
    t: int,
)
    requires
        f.wf(),
        0 <= t < f.toplevels.len(),
    ensures
        ({
            let d = f.toplevels[t];
            let h = WlrHandle { manager: m, surface: d.surface };
            let new = f.bind(m, client, clients).events.skip(f.events.len() as int);
            heard(new, h) == seq![
                EventView::WlrNew { handle: h },
                EventView::WlrTitle { handle: h, title: d.title },
                EventView::WlrAppId { handle: h, app_id: d.app_id },
                EventView::WlrState { handle: h, states: d.states },
            ] + told_entered(h, replay_laws::bound(clients.bindings, d.output, client)) + seq![
                EventView::WlrDone { handle: h },
            ]
        }),
{
    let d = f.toplevels[t];
    let h = WlrHandle { manager: m, surface: d.surface };
    let es = ForeignView::bind_events(f.toplevels, m, client, clients);
    assert(f.bind(m, client, clients).events.skip(f.events.len() as int) =~= es);
    lemma_bind_heard(f.toplevels, m, client, clients, t);
    lemma_bound(clients, d.output, client);
    let outputs = clients.client_outputs(d.output, client);
    assert(announce::enters(h, outputs) =~= told_entered(h, outputs));
}

/// What a handle of the `t`th toplevel hears of the toplevels that are gone.
proof fn lemma_gone_heard(
    toplevels: Seq<DataView>,
    snaps: Seq<SnapshotView>,
    t: int,
    h: WlrHandle,
)
    requires
        manager::toplevels_distinct(toplevels),
        forall|i: int| 0 <= i < toplevels.len() ==> (#[trigger] toplevels[i]).owns_handles(),
        0 <= t < toplevels.len(),
        h.surface == toplevels[t].surface,
        !manager::listed(snaps, h.surface),
    ensures
        heard(manager::gone_events(toplevels, snaps), h) == heard(toplevels[t].close_events(), h),
        heard_of_entry(manager::gone_events(toplevels, snaps), h.surface) == heard_of_entry(
            toplevels[t].close_events(),
            h.surface,
        ),
    decreases toplevels.len(),
{
    let rest = toplevels.drop_last();
    let last = toplevels.last();
    let n = toplevels.len() as int;
    let s = h.surface;
    assert(toplevels[n - 1] == last);
    assert(forall|x: int| 0 <= x < rest.len() ==> #[trigger] rest[x] == toplevels[x]);
    assert(manager::toplevels_distinct(rest));
    assert(last.owns_handles());
    let a = manager::gone_events(rest, snaps);
    let b = if manager::listed(snaps, last.surface) {
        Seq::<EventView>::empty()
    } else {
        last.close_events()
    };
    assert(manager::gone_events(toplevels, snaps) == a + b);
    lemma_heard_add(a, b, h);
    lemma_entry_add(a, b, s);
    lemma_closing_subjects(last);
    if t < n - 1 {
        lemma_gone_heard(rest, snaps, t, h);
        assert(last.surface != s);
        assert forall|x: int| 0 <= x < b.len() implies replay_laws::subject(#[trigger] b[x])
            != Some(s) by {}
        lemma_not_addressed(b, h);
        lemma_heard_none(b, h);
        assert forall|x: int| 0 <= x < b.len() implies !about_entry(#[trigger] b[x], s) by {
            assert(replay_laws::subject(b[x]) != Some(s));
        }
        lemma_entry_none(b, s);
        assert(heard(a, h) + Seq::<EventView>::empty() =~= heard(a, h));
        assert(heard_of_entry(a, s) + Seq::<EventView>::empty() =~= heard_of_entry(a, s));
    } else {
        assert forall|x: int| 0 <= x < rest.len() implies (#[trigger] rest[x]).surface != s by {
            assert(toplevels[x].surface != toplevels[n - 1].surface);
        }
        lemma_gone_of_others(rest, snaps, s);
        lemma_not_addressed(a, h);
        lemma_heard_none(a, h);
        assert forall|x: int| 0 <= x < a.len() implies !about_entry(#[trigger] a[x], s) by {
            assert(replay_laws::subject(a[x]) != Some(s));
        }
        lemma_entry_none(a, s);
        assert(Seq::<EventView>::empty() + heard(b, h) =~= heard(b, h));
        assert(Seq::<EventView>::empty() + heard_of_entry(b, s) =~= heard_of_entry(b, s));
    }
}

proof fn lemma_closing_subjects(d: DataView)
    requires
        d.owns_handles(),
    ensures
        forall|x: int|
            0 <= x < d.close_events().len() ==> replay_laws::subject(#[trigger] d.close_events()[x])
                == Some(d.surface),
{
    let b = d.close_events();
    assert forall|x: int| 0 <= x < b.len() implies replay_laws::subject(#[trigger] b[x]) == Some(
        d.surface,
    ) by {
        if x > 0 {
            assert(d.instances[x - 1].handle.surface == d.surface);
        }
    }
}

proof fn lemma_gone_of_others(toplevels: Seq<DataView>, snaps: Seq<SnapshotView>, s: u64)
    requires
        forall|i: int|
            0 <= i < toplevels.len() ==> (#[trigger] toplevels[i]).owns_handles()
                && toplevels[i].surface != s,
    ensures
        forall|x: int|
            0 <= x < manager::gone_events(toplevels, snaps).len() ==> replay_laws::subject(
                #[trigger] manager::gone_events(toplevels, snaps)[x],
            ) != Some(s),
    decreases toplevels.len(),
{
    if toplevels.len() > 0 {
        let rest = toplevels.drop_last();
        let last = toplevels.last();
        assert(forall|x: int| 0 <= x < rest.len() ==> #[trigger] rest[x] == toplevels[x]);
        assert(toplevels[toplevels.len() - 1] == last);
        lemma_gone_of_others(rest, snaps, s);
        lemma_closing_subjects(last);
        let a = manager::gone_events(rest, snaps);
        let b = last.close_events();
        let all = manager::gone_events(toplevels, snaps);
        assert forall|x: int| 0 <= x < all.len() implies replay_laws::subject(#[trigger] all[x])
            != Some(s) by {
            if x < a.len() {
                assert(all[x] == a[x]);
            } else {
                assert(all[x] == b[x - a.len()]);
            }
        }
    }
}

/// The handles of a toplevel hear once that it is gone.
proof fn lemma_closing_heard(d: DataView, i: int)
    requires
        d.owns_handles(),
        0 <= i < d.instances.len(),
    ensures
        heard(d.close_events(), d.instances[i].handle) == seq![
            EventView::WlrClosed { handle: d.instances[i].handle },
        ],
{
    let h = d.instances[i].handle;
    let c = EventView::WlrClosed { handle: h };
    let all = d.close_events();
    let a = all.take(i + 1);
    let b = all.skip(i + 2);
    assert(all[i + 1] == c);
    assert(all =~= a + seq![c] + b);
    lemma_heard_add(a + seq![c], b, h);
    lemma_heard_add(a, seq![c], h);
    assert forall|x: int| 0 <= x < a.len() implies replay_laws::addressee(#[trigger] a[x]) != Some(
        h,
    ) by {
        assert(a[x] == all[x]);
        if x > 0 {
            assert(d.instances[x - 1].handle != d.instances[i].handle);
        }
    }
    assert forall|x: int| 0 <= x < b.len() implies replay_laws::addressee(#[trigger] b[x]) != Some(
        h,
    ) by {
        assert(b[x] == all[x + i + 2]);
        assert(d.instances[x + i + 1].handle != d.instances[i].handle);
    }
    lemma_heard_none(a, h);
    lemma_heard_none(b, h);
    lemma_heard_all(seq![c], h);
    assert(Seq::<EventView>::empty() + seq![c] + Seq::<EventView>::empty() =~= seq![c]);
}

/// When a listed toplevel is gone, its entry in the ext list and each of its handles say so once, and
/// nothing else.
pub proof fn law_gone_is_told_once(
    f: ForeignView,
    snaps: Seq<SnapshotView>,
    clients: ClientsView,
    t: int,
    i: int,
)
    requires
        f.wf(),
        replay_laws::one_each(snaps),
        0 <= t < f.toplevels.len(),
        forall|j: int|
            0 <= j < snaps.len() ==> (#[trigger] snaps[j]).surface != f.toplevels[t].surface,
    ensures
        ({
            let d = f.toplevels[t];
            let new = replay_laws::news(f, snaps, clients);
            &&& heard_of_entry(new, d.surface) == seq![
                EventView::ExtClosed { surface: d.surface },
            ]
            &&& 0 <= i < d.instances.len() ==> heard(new, d.instances[i].handle) == seq![
                EventView::WlrClosed { handle: d.instances[i].handle },
            ]
        }),
{
    let d = f.toplevels[t];
    let s = d.surface;
    let c = f.close_gone(snaps);
    let gone = manager::gone_events(f.toplevels, snaps);
    let new = replay_laws::news(f, snaps, clients);
    assert(d.owns_handles());
    assert(manager::snapshots_distinct(snaps));
    assert(!manager::listed(snaps, s));
    lemma_remaining(f.toplevels, snaps);
    assert forall|x: int| 0 <= x < c.toplevels.len() implies (
    #[trigger] c.toplevels[x]).owns_handles() by {
        let y = manager::index_of(f.toplevels, c.toplevels[x].surface);
        assert(f.toplevels[y].owns_handles());
    }
    assert(c.wf());
    lemma_in_order(c, snaps, clients);
    let r = c.refresh_all(snaps, clients);
    let later = r.events.skip(c.events.len() as int);
    assert(new =~= gone + later) by {
        assert(r.events.take(c.events.len() as int) =~= c.events);
        assert(r.events =~= c.events + later);
    }
    assert forall|x: int| 0 <= x < later.len() implies replay_laws::subject(#[trigger] later[x])
        != Some(s) by {
        assert(spoken_of(snaps, later[x]));
    }
    assert forall|x: int| 0 <= x < later.len() implies !about_entry(#[trigger] later[x], s) by {
        assert(replay_laws::subject(later[x]) != Some(s));
    }
    lemma_entry_none(later, s);
    lemma_entry_add(gone, later, s);
    let any = WlrHandle { manager: 0, surface: s };
    lemma_gone_heard(f.toplevels, snaps, t, any);
    let ext = EventView::ExtClosed { surface: s };
    let closings = d.close_events();
    assert(closings =~= seq![ext] + closings.skip(1));
    lemma_entry_add(seq![ext], closings.skip(1), s);
    lemma_entry_all(seq![ext], s);
    assert forall|x: int| 0 <= x < closings.skip(1).len() implies !about_entry(
        #[trigger] closings.skip(1)[x],
        s,
    ) by {
        assert(closings.skip(1)[x] == closings[x + 1]);
    }
    lemma_entry_none(closings.skip(1), s);
    assert(seq![ext] + Seq::<EventView>::empty() =~= seq![ext]);
    if 0 <= i < d.instances.len() {
        let h = d.instances[i].handle;
        assert(h.surface == s);
        lemma_not_addressed(later, h);
        lemma_heard_none(later, h);
        lemma_heard_add(gone, later, h);
        lemma_gone_heard(f.toplevels, snaps, t, h);
        lemma_closing_heard(d, i);
        assert(heard(gone, h) + Seq::<EventView>::empty() =~= heard(gone, h));
    }
}

} // verus!
