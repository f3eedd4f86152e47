//! What a client that listens to the events knows: it is how the toplevels are.

use vstd::prelude::*;
use crate::handlers::foreign_toplevel::announce;
use crate::handlers::foreign_toplevel::data::{
    ClientsView, DataView, EventView, Manager, OutputBinding, SnapshotView, WlrHandle,
};
use crate::handlers::foreign_toplevel::laws::lemma_refresh_all;
use crate::handlers::foreign_toplevel::manager;
use crate::handlers::foreign_toplevel::manager::{lemma_index, lemma_remaining, ForeignView};

verus! {

/// What a client knows of a toplevel through one of its handles.
#[verifier::ext_equal]
pub struct Knowledge {
    pub title: Seq<char>,
    pub app_id: Seq<char>,
    pub states: Seq<u8>,
    pub outputs: Seq<u64>,
}

/// What a client that knows `k` through the handle `h` knows after `e`.
pub open spec fn hear(k: Knowledge, e: EventView, h: WlrHandle) -> Knowledge {
    match e {
        EventView::WlrTitle { handle, title } => if handle == h {
            Knowledge { title, ..k }
        } else {
            k
        },
        EventView::WlrAppId { handle, app_id } => if handle == h {
            Knowledge { app_id, ..k }
        } else {
            k
        },
        EventView::WlrState { handle, states } => if handle == h {
            Knowledge { states, ..k }
        } else {
            k
        },
        EventView::WlrOutputEnter { handle, output } => if handle == h {
            Knowledge { outputs: k.outputs.push(output), ..k }
        } else {
            k
        },
        EventView::WlrOutputLeave { handle, output } => if handle == h {
            Knowledge { outputs: without(k.outputs, output), ..k }
        } else {
            k
        },
        _ => k,
    }
}

/// `s` without every `x`.
pub open spec fn without(s: Seq<u64>, x: u64) -> Seq<u64>
    decreases s.len(),
{
    if s.len() == 0 {
        s
    } else if s.last() == x {
        without(s.drop_last(), x)
    } else {
        without(s.drop_last(), x).push(s.last())
    }
}

/// What a client that knows `k` through the handle `h` knows after `events`.
pub open spec fn replay(k: Knowledge, events: Seq<EventView>, h: WlrHandle) -> Knowledge
    decreases events.len(),
{
    if events.len() == 0 {
        k
    } else {
        hear(replay(k, events.drop_last(), h), events.last(), h)
    }
}

/// What a client that knows a title and an application id from the ext list knows after `e`.
pub open spec fn hear_ext(k: (Seq<char>, Seq<char>), e: EventView, s: u64) -> (
    Seq<char>,
    Seq<char>,
) {
    match e {
        EventView::ExtNew { surface, title, app_id } => if surface == s {
            (title, app_id)
        } else {
            k
        },
        EventView::ExtTitle { surface, title } => if surface == s {
            (title, k.1)
        } else {
            k
        },
        EventView::ExtAppId { surface, app_id } => if surface == s {
            (k.0, app_id)
        } else {
            k
        },
        _ => k,
    }
}

/// What a client that knows a title and an application id from the ext list knows after `events`.
pub open spec fn replay_ext(k: (Seq<char>, Seq<char>), events: Seq<EventView>, s: u64) -> (
    Seq<char>,
    Seq<char>,
)
    decreases events.len(),
{
    if events.len() == 0 {
        k
    } else {
        hear_ext(replay_ext(k, events.drop_last(), s), events.last(), s)
    }
}

/// The toplevel that an event is about.
pub open spec fn subject(e: EventView) -> Option<u64> {
    match e {
        EventView::ExtNew { surface, .. } => Some(surface),
        EventView::ExtTitle { surface, .. } => Some(surface),
        EventView::ExtAppId { surface, .. } => Some(surface),
        EventView::ExtDone { surface } => Some(surface),
        EventView::ExtClosed { surface } => Some(surface),
        EventView::WlrNew { handle } => Some(handle.surface),
        EventView::WlrTitle { handle, .. } => Some(handle.surface),
        EventView::WlrAppId { handle, .. } => Some(handle.surface),
        EventView::WlrState { handle, .. } => Some(handle.surface),
        EventView::WlrOutputEnter { handle, .. } => Some(handle.surface),
        EventView::WlrOutputLeave { handle, .. } => Some(handle.surface),
        EventView::WlrDone { handle } => Some(handle.surface),
        EventView::WlrClosed { handle } => Some(handle.surface),
        EventView::WlrFinished { .. } => None,
    }
}

/// The handle that an event is about.
pub open spec fn addressee(e: EventView) -> Option<WlrHandle> {
    match e {
        EventView::WlrNew { handle } => Some(handle),
        EventView::WlrTitle { handle, .. } => Some(handle),
        EventView::WlrAppId { handle, .. } => Some(handle),
        EventView::WlrState { handle, .. } => Some(handle),
        EventView::WlrOutputEnter { handle, .. } => Some(handle),
        EventView::WlrOutputLeave { handle, .. } => Some(handle),
        EventView::WlrDone { handle } => Some(handle),
        EventView::WlrClosed { handle } => Some(handle),
        _ => None,
    }
}

/// The last of `events` that is about the handle `h`.
pub open spec fn last_word(events: Seq<EventView>, h: WlrHandle) -> Option<EventView>
    decreases events.len(),
{
    if events.len() == 0 {
        None
    } else if addressee(events.last()) == Some(h) {
        Some(events.last())
    } else {
        last_word(events.drop_last(), h)
    }
}

/// The output objects of `client` for `output`, in the order of the bindings.
pub open spec fn bound(bindings: Seq<OutputBinding>, output: Option<u64>, client: u64) -> Seq<u64>
    decreases bindings.len(),
{
    if bindings.len() == 0 || output is None {
        Seq::empty()
    } else if bindings.last().output == output->0 && bindings.last().client == client {
        bound(bindings.drop_last(), output, client).push(bindings.last().resource)
    } else {
        bound(bindings.drop_last(), output, client)
    }
}

pub(crate) proof fn lemma_bound(clients: ClientsView, output: Option<u64>, client: u64)
    ensures
        clients.client_outputs(output, client) == bound(clients.bindings, output, client),
    decreases clients.bindings.len(),
{
    reveal(Seq::filter);
    let bs = clients.bindings;
    if let Some(o) = output {
        let pred = |b: OutputBinding| b.output == o && b.client == client;
        let name = |b: OutputBinding| b.resource;
        if bs.len() > 0 {
            let less = ClientsView { bindings: bs.drop_last(), ..clients };
            lemma_bound(less, output, client);
            assert(less.client_outputs(output, client) == bs.drop_last().filter(pred).map_values(
                name,
            ));
            if pred(bs.last()) {
                assert(bs.filter(pred) == bs.drop_last().filter(pred).push(bs.last()));
                assert(bs.filter(pred).map_values(name) =~= bs.drop_last().filter(pred).map_values(
                    name,
                ).push(bs.last().resource));
            }
            assert(clients.client_outputs(output, client) == bs.filter(pred).map_values(name));
        } else {
            assert(bs.filter(pred).map_values(name) =~= Seq::empty());
        }
    } else {
        assert(bound(bs, output, client) =~= Seq::empty());
    }
}

pub(crate) proof fn lemma_replay_add(k: Knowledge, a: Seq<EventView>, b: Seq<EventView>, h: WlrHandle)
    ensures
        replay(k, a + b, h) == replay(replay(k, a, h), b, h),
    decreases b.len(),
{
    if b.len() == 0 {
        assert(a + b =~= a);
    } else {
        lemma_replay_add(k, a, b.drop_last(), h);
        assert((a + b).drop_last() =~= a + b.drop_last());
        assert((a + b).last() == b.last());
    }
}

proof fn lemma_replay_ext_add(
    k: (Seq<char>, Seq<char>),
    a: Seq<EventView>,
    b: Seq<EventView>,
    s: u64,
)
    ensures
        replay_ext(k, a + b, s) == replay_ext(replay_ext(k, a, s), b, s),
    decreases b.len(),
{
    if b.len() == 0 {
        assert(a + b =~= a);
    } else {
        lemma_replay_ext_add(k, a, b.drop_last(), s);
        assert((a + b).drop_last() =~= a + b.drop_last());
        assert((a + b).last() == b.last());
    }
}

pub(crate) proof fn lemma_last_word_add(a: Seq<EventView>, b: Seq<EventView>, h: WlrHandle)
    ensures
        last_word(a + b, h) == if last_word(b, h) is Some {
            last_word(b, h)
        } else {
            last_word(a, h)
        },
    decreases b.len(),
{
    if b.len() == 0 {
        assert(a + b =~= a);
    } else {
        lemma_last_word_add(a, b.drop_last(), h);
        assert((a + b).drop_last() =~= a + b.drop_last());
        assert((a + b).last() == b.last());
    }
}

/// Events to others teach nothing.
pub(crate) proof fn lemma_unheard(k: Knowledge, events: Seq<EventView>, h: WlrHandle)
    requires
        forall|i: int| 0 <= i < events.len() ==> addressee(#[trigger] events[i]) != Some(h),
    ensures
        replay(k, events, h) == k,
        last_word(events, h) is None,
    decreases events.len(),
{
    if events.len() > 0 {
        let rest = events.drop_last();
        assert(forall|i: int| 0 <= i < rest.len() ==> #[trigger] rest[i] == events[i]);
        lemma_unheard(k, rest, h);
        assert(addressee(events[events.len() - 1]) != Some(h));
    }
}

/// Events about other toplevels teach nothing.
proof fn lemma_unheard_ext(k: (Seq<char>, Seq<char>), events: Seq<EventView>, s: u64)
    requires
        forall|i: int| 0 <= i < events.len() ==> subject(#[trigger] events[i]) != Some(s),
    ensures
        replay_ext(k, events, s) == k,
    decreases events.len(),
{
    if events.len() > 0 {
        let rest = events.drop_last();
        assert(forall|i: int| 0 <= i < rest.len() ==> #[trigger] rest[i] == events[i]);
        lemma_unheard_ext(k, rest, s);
        assert(subject(events[events.len() - 1]) != Some(s));
    }
}

/// Entering outputs one after the other.
proof fn lemma_replay_enters(k: Knowledge, h: WlrHandle, outputs: Seq<u64>)
    ensures
        replay(k, announce::enters(h, outputs), h) == (Knowledge {
            outputs: k.outputs + outputs,
            ..k
        }),
    decreases outputs.len(),
{
    let es = announce::enters(h, outputs);
    if outputs.len() > 0 {
        let rest = outputs.drop_last();
        lemma_replay_enters(k, h, rest);
        assert(es.drop_last() =~= announce::enters(h, rest));
        assert(es.last() == (EventView::WlrOutputEnter { handle: h, output: outputs.last() }));
        assert((k.outputs + rest).push(outputs.last()) =~= k.outputs + outputs);
    } else {
        assert(k.outputs + outputs =~= k.outputs);
    }
}

/// What is left of `known` once every one of `outputs` was left.
pub open spec fn without_all(known: Seq<u64>, outputs: Seq<u64>) -> Seq<u64>
    decreases outputs.len(),
{
    if outputs.len() == 0 {
        known
    } else {
        without(without_all(known, outputs.drop_last()), outputs.last())
    }
}

proof fn lemma_without(s: Seq<u64>, x: u64)
    ensures
        forall|y: u64| #[trigger] without(s, x).contains(y) ==> s.contains(y) && y != x,
    decreases s.len(),
{
    if s.len() > 0 {
        let rest = s.drop_last();
        lemma_without(rest, x);
        assert forall|y: u64| #[trigger] without(s, x).contains(y) implies s.contains(y) && y
            != x by {
            let w = without(s, x);
            let k = w.index_of(y);
            if s.last() == x {
                assert(without(rest, x).contains(y));
            } else if k < w.len() - 1 {
                assert(without(rest, x)[k] == y);
                assert(without(rest, x).contains(y));
            }
            if rest.contains(y) {
                let i = rest.index_of(y);
                assert(s[i] == y);
            } else {
                assert(s[s.len() - 1] == y);
            }
        }
    }
}

proof fn lemma_without_all(known: Seq<u64>, outputs: Seq<u64>)
    ensures
        forall|y: u64|
            #[trigger] without_all(known, outputs).contains(y) ==> known.contains(y)
                && !outputs.contains(y),
    decreases outputs.len(),
{
    if outputs.len() > 0 {
        let rest = outputs.drop_last();
        lemma_without_all(known, rest);
        lemma_without(without_all(known, rest), outputs.last());
        assert forall|y: u64| #[trigger] without_all(known, outputs).contains(
            y,
        ) implies known.contains(y) && !outputs.contains(y) by {
            assert(without_all(known, rest).contains(y));
            if outputs.contains(y) {
                let i = outputs.index_of(y);
                if i < rest.len() {
                    assert(rest[i] == y);
                }
            }
        }
    }
}

/// Leaving outputs one after the other.
proof fn lemma_replay_leaves(k: Knowledge, h: WlrHandle, outputs: Seq<u64>)
    ensures
        replay(k, announce::leaves(h, outputs), h) == (Knowledge {
            outputs: without_all(k.outputs, outputs),
            ..k
        }),
    decreases outputs.len(),
{
    let es = announce::leaves(h, outputs);
    if outputs.len() > 0 {
        let rest = outputs.drop_last();
        lemma_replay_leaves(k, h, rest);
        assert(es.drop_last() =~= announce::leaves(h, rest));
        assert(es.last() == (EventView::WlrOutputLeave { handle: h, output: outputs.last() }));
    }
}

proof fn lemma_leave_everything(outputs: Seq<u64>)
    ensures
        without_all(outputs, outputs) == Seq::<u64>::empty(),
{
    lemma_without_all(outputs, outputs);
    let left = without_all(outputs, outputs);
    if left.len() > 0 {
        assert(left.contains(left[0]));
    }
    assert(left =~= Seq::<u64>::empty());
}

/// What the client of the `i`th handle of `d` has been told.
pub open spec fn known_by(d: DataView, i: int) -> Knowledge {
    Knowledge {
        title: d.title,
        app_id: d.app_id,
        states: d.states,
        outputs: d.instances[i].outputs,
    }
}

/// What the client of the `i`th handle of `d` should know of `snap`.
pub open spec fn should_know(
    d: DataView,
    i: int,
    snap: SnapshotView,
    clients: ClientsView,
) -> Knowledge {
    Knowledge {
        title: snap.title,
        app_id: snap.app_id,
        states: snap.states,
        outputs: if d.output == snap.output {
            d.instances[i].outputs
        } else if clients.live.contains(d.instances[i].client) {
            bound(clients.bindings, snap.output, d.instances[i].client)
        } else {
            Seq::empty()
        },
    }
}

/// Whether `snap` says just what `d` says.
pub open spec fn same_as(d: DataView, snap: SnapshotView) -> bool {
    d.title == snap.title && d.app_id == snap.app_id && d.states == snap.states && d.output
        == snap.output
}

/// One event.
proof fn lemma_replay_if(k: Knowledge, happened: bool, e: EventView, h: WlrHandle)
    ensures
        replay(k, announce::event_if(happened, e), h) == if happened {
            hear(k, e, h)
        } else {
            k
        },
{
    reveal_with_fuel(replay, 2);
    if happened {
        assert(announce::event_if(happened, e).drop_last() =~= Seq::empty());
    }
}

/// One event.
proof fn lemma_replay_ext_if(k: (Seq<char>, Seq<char>), happened: bool, e: EventView, s: u64)
    ensures
        replay_ext(k, announce::event_if(happened, e), s) == if happened {
            hear_ext(k, e, s)
        } else {
            k
        },
{
    reveal_with_fuel(replay_ext, 2);
    if happened {
        assert(announce::event_if(happened, e).drop_last() =~= Seq::empty());
    }
}

/// Five parts one after the other.
proof fn lemma_replay_parts(
    k: Knowledge,
    e1: Seq<EventView>,
    e2: Seq<EventView>,
    e3: Seq<EventView>,
    e4: Seq<EventView>,
    e5: Seq<EventView>,
    h: WlrHandle,
)
    ensures
        replay(k, e1 + e2 + e3 + e4 + e5, h) == replay(
            replay(replay(replay(replay(k, e1, h), e2, h), e3, h), e4, h),
            e5,
            h,
        ),
{
    lemma_replay_add(k, e1 + e2 + e3 + e4, e5, h);
    lemma_replay_add(k, e1 + e2 + e3, e4, h);
    lemma_replay_add(k, e1 + e2, e3, h);
    lemma_replay_add(k, e1, e2, h);
}

/// What leaving the old outputs and entering new ones teaches.
proof fn lemma_replay_moves(k: Knowledge, h: WlrHandle, from: Seq<u64>, to: Seq<u64>)
    requires
        k.outputs == from,
    ensures
        replay(k, announce::leaves(h, from) + announce::enters(h, to), h) == (Knowledge {
            outputs: to,
            ..k
        }),
{
    lemma_replay_add(k, announce::leaves(h, from), announce::enters(h, to), h);
    lemma_replay_leaves(k, h, from);
    lemma_leave_everything(from);
    lemma_replay_enters(replay(k, announce::leaves(h, from), h), h, to);
    assert(Seq::<u64>::empty() + to =~= to);
}

proof fn lemma_replay_done(k: Knowledge, h: WlrHandle)
    ensures
        replay(k, seq![EventView::WlrDone { handle: h }], h) == k,
{
    reveal_with_fuel(replay, 2);
    assert(seq![EventView::WlrDone { handle: h }].drop_last() =~= Seq::empty());
}

/// What one handle of a toplevel teaches of a change.
proof fn lemma_instance_teaches(d: DataView, i: int, snap: SnapshotView, clients: ClientsView)
    requires
        0 <= i < d.instances.len(),
    ensures
        replay(
            known_by(d, i),
            d.instance_update_events(d.instances[i], snap, clients),
            d.instances[i].handle,
        ) == should_know(d, i, snap, clients),
{
    let inst = d.instances[i];
    let h = inst.handle;
    let k0 = known_by(d, i);
    let title = EventView::WlrTitle { handle: h, title: snap.title };
    let app_id = EventView::WlrAppId { handle: h, app_id: snap.app_id };
    let states = EventView::WlrState { handle: h, states: snap.states };
    let e1 = announce::event_if(d.title != snap.title, title);
    let e2 = announce::event_if(d.app_id != snap.app_id, app_id);
    let e3 = announce::event_if(d.states != snap.states, states);
    let entered = clients.live_client_outputs(snap.output, inst.client);
    let moves = announce::leaves(h, inst.outputs) + announce::enters(h, entered);
    let e4 = if d.output != snap.output {
        moves
    } else {
        Seq::empty()
    };
    let e5 = seq![EventView::WlrDone { handle: h }];
    lemma_replay_parts(k0, e1, e2, e3, e4, e5, h);
    lemma_replay_if(k0, d.title != snap.title, title, h);
    let k1 = replay(k0, e1, h);
    lemma_replay_if(k1, d.app_id != snap.app_id, app_id, h);
    let k2 = replay(k1, e2, h);
    lemma_replay_if(k2, d.states != snap.states, states, h);
    let k3 = replay(k2, e3, h);
    lemma_replay_moves(k3, h, inst.outputs, entered);
    lemma_bound(clients, snap.output, inst.client);
    let k4 = replay(k3, e4, h);
    lemma_replay_done(k4, h);
    assert(d.instance_update_events(inst, snap, clients) == e1 + e2 + e3 + e4 + e5);
    assert(k4 == should_know(d, i, snap, clients));
}

/// All that a handle says of a change it says to its client, and it ends with saying that it is
/// complete.
pub(crate) proof fn lemma_instance_addresses(d: DataView, i: int, snap: SnapshotView, clients: ClientsView)
    requires
        0 <= i < d.instances.len(),
    ensures
        ({
            let h = d.instances[i].handle;
            let es = d.instance_update_events(d.instances[i], snap, clients);
            &&& last_word(es, h) == Some(EventView::WlrDone { handle: h })
            &&& forall|x: int| 0 <= x < es.len() ==> addressee(#[trigger] es[x]) == Some(h)
        }),
{
    let h = d.instances[i].handle;
    let es = d.instance_update_events(d.instances[i], snap, clients);
    assert(es.last() == (EventView::WlrDone { handle: h }));
}

/// What the first `n` handles of a toplevel teach of a change.
proof fn lemma_handles_teach(
    d: DataView,
    n: int,
    i: int,
    snap: SnapshotView,
    clients: ClientsView,
)
    requires
        d.owns_handles(),
        0 <= n <= d.instances.len(),
        0 <= i < d.instances.len(),
    ensures
        ({
            let h = d.instances[i].handle;
            let es = d.wlr_update_events(n, snap, clients);
            &&& replay(known_by(d, i), es, h) == if i < n {
                should_know(d, i, snap, clients)
            } else {
                known_by(d, i)
            }
            &&& last_word(es, h) == if i < n {
                Some(EventView::WlrDone { handle: h })
            } else {
                None
            }
            &&& forall|x: int|
                0 <= x < es.len() ==> (addressee(#[trigger] es[x]) matches Some(a) && a.surface
                    == d.surface)
        }),
    decreases n,
{
    let h = d.instances[i].handle;
    if n > 0 {
        lemma_handles_teach(d, n - 1, i, snap, clients);
        let a = d.wlr_update_events(n - 1, snap, clients);
        let b = d.instance_update_events(d.instances[n - 1], snap, clients);
        lemma_instance_teaches(d, n - 1, snap, clients);
        lemma_instance_addresses(d, n - 1, snap, clients);
        lemma_replay_add(known_by(d, i), a, b, h);
        lemma_last_word_add(a, b, h);
        if i != n - 1 {
            assert(d.instances[n - 1].handle != h);
            lemma_unheard(replay(known_by(d, i), a, h), b, h);
        }
        let es = d.wlr_update_events(n, snap, clients);
        assert(es == a + b);
        assert forall|x: int| 0 <= x < es.len() implies (addressee(#[trigger] es[x]) matches Some(
            z,
        ) && z.surface == d.surface) by {
            if x < a.len() {
                assert(es[x] == a[x]);
            } else {
                assert(es[x] == b[x - a.len()]);
                assert(d.instances[n - 1].handle.surface == d.surface);
            }
        }
    }
}

/// What the events of a change teach, through a handle and from the ext list.
proof fn lemma_update_teaches(d: DataView, i: int, snap: SnapshotView, clients: ClientsView)
    requires
        d.owns_handles(),
        0 <= i < d.instances.len(),
    ensures
        ({
            let h = d.instances[i].handle;
            let es = d.update_events(snap, clients);
            &&& replay(known_by(d, i), es, h) == should_know(d, i, snap, clients)
            &&& last_word(es, h) == if same_as(d, snap) {
                None
            } else {
                Some(EventView::WlrDone { handle: h })
            }
        }),
{
    let h = d.instances[i].handle;
    let n = d.instances.len() as int;
    let es = d.update_events(snap, clients);
    if !same_as(d, snap) {
        assert(d.outdated(snap));
        let a = d.ext_update_events(snap);
        let b = d.wlr_update_events(n, snap, clients);
        assert(forall|x: int| 0 <= x < a.len() ==> addressee(#[trigger] a[x]) is None);
        lemma_unheard(known_by(d, i), a, h);
        lemma_replay_add(known_by(d, i), a, b, h);
        lemma_last_word_add(a, b, h);
        lemma_handles_teach(d, n, i, snap, clients);
    } else {
        assert(es =~= Seq::empty());
    }
}

/// What the ext list teaches of a change.
proof fn lemma_update_teaches_ext(d: DataView, snap: SnapshotView, clients: ClientsView)
    requires
        d.owns_handles(),
        d.surface == snap.surface,
    ensures
        ({
            let es = d.update_events(snap, clients);
            &&& replay_ext((d.title, d.app_id), es, d.surface) == (snap.title, snap.app_id)
            &&& forall|x: int| 0 <= x < es.len() ==> subject(#[trigger] es[x]) == Some(d.surface)
        }),
{
    let s = d.surface;
    let n = d.instances.len() as int;
    let k0 = (d.title, d.app_id);
    let es = d.update_events(snap, clients);
    let a = d.ext_update_events(snap);
    let b = d.wlr_update_events(n, snap, clients);
    if d.instances.len() > 0 {
        lemma_handles_teach(d, n, 0, snap, clients);
    }
    assert forall|x: int| 0 <= x < b.len() implies subject(#[trigger] b[x]) == Some(s) && !(
    b[x] is ExtNew) && !(b[x] is ExtTitle) && !(b[x] is ExtAppId) by {
        assert(addressee(b[x]) is Some);
    }
    let e1 = announce::event_if(
        d.title != snap.title,
        EventView::ExtTitle { surface: s, title: snap.title },
    );
    let e2 = announce::event_if(
        d.app_id != snap.app_id,
        EventView::ExtAppId { surface: s, app_id: snap.app_id },
    );
    let e3 = seq![EventView::ExtDone { surface: s }];
    if d.title != snap.title || d.app_id != snap.app_id {
        assert(a == e1 + e2 + e3);
        lemma_replay_ext_add(k0, e1 + e2, e3, s);
        lemma_replay_ext_add(k0, e1, e2, s);
        lemma_replay_ext_if(
            k0,
            d.title != snap.title,
            EventView::ExtTitle { surface: s, title: snap.title },
            s,
        );
        lemma_replay_ext_if(
            replay_ext(k0, e1, s),
            d.app_id != snap.app_id,
            EventView::ExtAppId { surface: s, app_id: snap.app_id },
            s,
        );
        reveal_with_fuel(replay_ext, 2);
        assert(e3.drop_last() =~= Seq::empty());
    }
    assert(replay_ext(k0, a, s) == (snap.title, snap.app_id));
    lemma_replay_ext_add(k0, a, b, s);
    lemma_quiet_ext(replay_ext(k0, a, s), b, s);
    if !d.outdated(snap) {
        assert(es =~= Seq::empty());
    }
}

/// Events of handles teach nothing on the ext list.
proof fn lemma_quiet_ext(k: (Seq<char>, Seq<char>), events: Seq<EventView>, s: u64)
    requires
        forall|x: int|
            0 <= x < events.len() ==> !(#[trigger] events[x] is ExtNew) && !(events[x] is ExtTitle)
                && !(events[x] is ExtAppId),
    ensures
        replay_ext(k, events, s) == k,
    decreases events.len(),
{
    if events.len() > 0 {
        let rest = events.drop_last();
        assert(forall|i: int| 0 <= i < rest.len() ==> #[trigger] rest[i] == events[i]);
        lemma_quiet_ext(k, rest, s);
        assert(!(events[events.len() - 1] is ExtNew));
    }
}

/// What a manager learns of a toplevel that it is told of for the first time.
pub(crate) proof fn lemma_announcement_teaches(
    d: DataView,
    m: u64,
    client: u64,
    clients: ClientsView,
    k: Knowledge,
)
    ensures
        ({
            let h = WlrHandle { manager: m, surface: d.surface };
            let es = d.announce_events(m, client, clients);
            &&& replay(k, es, h) == (Knowledge {
                title: d.title,
                app_id: d.app_id,
                states: d.states,
                outputs: k.outputs + bound(clients.bindings, d.output, client),
            })
            &&& last_word(es, h) == Some(EventView::WlrDone { handle: h })
            &&& forall|x: int| 0 <= x < es.len() ==> addressee(#[trigger] es[x]) == Some(h)
            &&& es.len() > 0
            &&& es[0] == (EventView::WlrNew { handle: h })
        }),
{
    let h = WlrHandle { manager: m, surface: d.surface };
    let es = d.announce_events(m, client, clients);
    let outputs = clients.client_outputs(d.output, client);
    lemma_bound(clients, d.output, client);
    let new = seq![EventView::WlrNew { handle: h }];
    let title = seq![EventView::WlrTitle { handle: h, title: d.title }];
    let app_id = seq![EventView::WlrAppId { handle: h, app_id: d.app_id }];
    let states = seq![EventView::WlrState { handle: h, states: d.states }];
    let rest = announce::enters(h, outputs) + seq![EventView::WlrDone { handle: h }];
    assert(es =~= new + title + app_id + states + rest);
    lemma_replay_parts(k, new, title, app_id, states, rest, h);
    assert(replay(k, new, h) == k) by {
        reveal_with_fuel(replay, 2);
        assert(new.drop_last() =~= Seq::empty());
    }
    let k1 = replay(k, title, h);
    assert(k1 == (Knowledge { title: d.title, ..k })) by {
        reveal_with_fuel(replay, 2);
        assert(title.drop_last() =~= Seq::empty());
    }
    let k2 = replay(k1, app_id, h);
    assert(k2 == (Knowledge { app_id: d.app_id, ..k1 })) by {
        reveal_with_fuel(replay, 2);
        assert(app_id.drop_last() =~= Seq::empty());
    }
    let k3 = replay(k2, states, h);
    assert(k3 == (Knowledge { states: d.states, ..k2 })) by {
        reveal_with_fuel(replay, 2);
        assert(states.drop_last() =~= Seq::empty());
    }
    lemma_replay_add(
        k3,
        announce::enters(h, outputs),
        seq![EventView::WlrDone { handle: h }],
        h,
    );
    lemma_replay_enters(k3, h, outputs);
    lemma_replay_done(replay(k3, announce::enters(h, outputs), h), h);
    assert(es.last() == (EventView::WlrDone { handle: h }));
}

/// What a manager learns of a toplevel that all managers are told of.
proof fn lemma_announcements_teach(
    d: DataView,
    managers: Seq<Manager>,
    clients: ClientsView,
    i: int,
    k: Knowledge,
)
    requires
        manager::managers_distinct(managers),
        0 <= i < managers.len(),
    ensures
        ({
            let h = WlrHandle { manager: managers[i].id, surface: d.surface };
            let es = d.announce_all_events(managers, clients);
            let live = clients.live.contains(managers[i].client);
            &&& replay(k, es, h) == if live {
                Knowledge {
                    title: d.title,
                    app_id: d.app_id,
                    states: d.states,
                    outputs: k.outputs + bound(clients.bindings, d.output, managers[i].client),
                }
            } else {
                k
            }
            &&& last_word(es, h) == if live {
                Some(EventView::WlrDone { handle: h })
            } else {
                None
            }
            &&& live ==> es.contains(EventView::WlrNew { handle: h })
        }),
    decreases managers.len(),
{
    let h = WlrHandle { manager: managers[i].id, surface: d.surface };
    let rest = managers.drop_last();
    let last = managers.last();
    let n = managers.len() as int;
    assert(managers[n - 1] == last);
    assert(forall|x: int| 0 <= x < rest.len() ==> #[trigger] rest[x] == managers[x]);
    assert(manager::managers_distinct(rest));
    let a = d.announce_all_events(rest, clients);
    let b = d.announce_events(last.id, last.client, clients);
    let es = d.announce_all_events(managers, clients);
    lemma_announcement_teaches(d, last.id, last.client, clients, replay(k, a, h));
    lemma_announced_addresses(d, rest, clients);
    lemma_replay_add(k, a, b, h);
    lemma_last_word_add(a, b, h);
    if i < n - 1 {
        lemma_announcements_teach(d, rest, clients, i, k);
        assert(managers[i].id != last.id);
        lemma_unheard(replay(k, a, h), b, h);
        if clients.live.contains(managers[i].client) {
            let x = a.index_of(EventView::WlrNew { handle: h });
            assert(es[x] == (EventView::WlrNew { handle: h }));
        }
    } else {
        assert forall|x: int| 0 <= x < a.len() implies addressee(#[trigger] a[x]) != Some(h) by {
            let m = choose|m: int|
                0 <= m < rest.len() && addressee(a[x]) == Some(
                    WlrHandle { manager: (#[trigger] rest[m]).id, surface: d.surface },
                );
            assert(managers[m].id != managers[n - 1].id);
        }
        lemma_unheard(k, a, h);
        if clients.live.contains(last.client) {
            assert(es[a.len() as int] == b[0]);
        }
    }
}

/// All that the managers are told is addressed to one of them.
pub(crate) proof fn lemma_announced_addresses(d: DataView, managers: Seq<Manager>, clients: ClientsView)
    ensures
        forall|x: int|
            0 <= x < d.announce_all_events(managers, clients).len() ==> exists|m: int|
                0 <= m < managers.len() && addressee(
                    #[trigger] d.announce_all_events(managers, clients)[x],
                ) == Some(
                    WlrHandle { manager: (#[trigger] managers[m]).id, surface: d.surface },
                ),
    decreases managers.len(),
{
    if managers.len() > 0 {
        let rest = managers.drop_last();
        let last = managers.last();
        let n = managers.len() as int;
        lemma_announced_addresses(d, rest, clients);
        let a = d.announce_all_events(rest, clients);
        let b = d.announce_events(last.id, last.client, clients);
        let es = d.announce_all_events(managers, clients);
        lemma_announcement_teaches(
            d,
            last.id,
            last.client,
            clients,
            Knowledge {
                title: d.title,
                app_id: d.app_id,
                states: d.states,
                outputs: Seq::empty(),
            },
        );
        assert(managers[n - 1] == last);
        assert forall|x: int| 0 <= x < es.len() implies exists|m: int|
            0 <= m < managers.len() && addressee(#[trigger] es[x]) == Some(
                WlrHandle { manager: (#[trigger] managers[m]).id, surface: d.surface },
            ) by {
            if x < a.len() {
                assert(es[x] == a[x]);
                let m = choose|m: int|
                    0 <= m < rest.len() && addressee(a[x]) == Some(
                        WlrHandle { manager: (#[trigger] rest[m]).id, surface: d.surface },
                    );
                assert(managers[m] == rest[m]);
            } else {
                assert(es[x] == b[x - a.len()]);
                assert(addressee(es[x]) == Some(
                    WlrHandle { manager: managers[n - 1].id, surface: d.surface },
                ));
            }
        }
    }
}

/// What bringing one toplevel up to date says.
pub open spec fn step(f: ForeignView, snap: SnapshotView, clients: ClientsView) -> Seq<EventView> {
    if f.knows(snap.surface) {
        f.told(snap.surface).update_events(snap, clients)
    } else {
        seq![
            EventView::ExtNew {
                surface: snap.surface,
                title: snap.title,
                app_id: snap.app_id,
            },
        ] + snap.unannounced().announce_all_events(f.managers, clients)
    }
}

/// Bringing one toplevel up to date speaks of that one only.
pub(crate) proof fn lemma_step(f: ForeignView, snap: SnapshotView, clients: ClientsView)
    requires
        f.wf(),
    ensures
        f.refresh_one(snap, clients).events == f.events + step(f, snap, clients),
        forall|x: int|
            0 <= x < step(f, snap, clients).len() ==> subject(
                #[trigger] step(f, snap, clients)[x],
            ) == Some(snap.surface),
{
    let es = step(f, snap, clients);
    if f.knows(snap.surface) {
        let i = manager::index_of(f.toplevels, snap.surface);
        let d = f.told(snap.surface);
        assert(f.toplevels[i].owns_handles());
        lemma_update_teaches_ext(d, snap, clients);
    } else {
        let b = snap.unannounced().announce_all_events(f.managers, clients);
        lemma_announced_addresses(snap.unannounced(), f.managers, clients);
        assert(f.refresh_one(snap, clients).events =~= f.events + es);
        assert forall|x: int| 0 <= x < es.len() implies subject(#[trigger] es[x]) == Some(
            snap.surface,
        ) by {
            if x > 0 {
                assert(es[x] == b[x - 1]);
                let m = choose|m: int|
                    0 <= m < f.managers.len() && addressee(b[x - 1]) == Some(
                        WlrHandle {
                            manager: (#[trigger] f.managers[m]).id,
                            surface: snap.surface,
                        },
                    );
                assert(addressee(b[x - 1]) is Some);
            }
        }
    }
}

/// What bringing all toplevels up to date says of one of them is what bringing that one up to date
/// says.
proof fn lemma_step_isolated(
    f: ForeignView,
    snaps: Seq<SnapshotView>,
    clients: ClientsView,
    j: int,
) -> (parts: (Seq<EventView>, Seq<EventView>))
    requires
        f.wf(),
        manager::snapshots_distinct(snaps),
        0 <= j < snaps.len(),
    ensures
        f.refresh_all(snaps, clients).events == f.events + parts.0 + step(f, snaps[j], clients)
            + parts.1,
        forall|x: int|
            0 <= x < parts.0.len() ==> subject(#[trigger] parts.0[x]) != Some(snaps[j].surface),
        forall|x: int|
            0 <= x < parts.1.len() ==> subject(#[trigger] parts.1[x]) != Some(snaps[j].surface),
    decreases snaps.len(),
{
    let rest = snaps.drop_last();
    let last = snaps.last();
    let n = snaps.len() as int;
    assert(snaps[n - 1] == last);
    assert(forall|i: int| 0 <= i < rest.len() ==> #[trigger] rest[i] == snaps[i]);
    assert(manager::snapshots_distinct(rest));
    lemma_refresh_all(f, rest, clients);
    let r = f.refresh_all(rest, clients);
    lemma_step(r, last, clients);
    if j < n - 1 {
        let (a, b) = lemma_step_isolated(f, rest, clients, j);
        let more = step(r, last, clients);
        let all = b + more;
        assert(snaps[j].surface != last.surface);
        assert forall|x: int| 0 <= x < all.len() implies subject(#[trigger] all[x]) != Some(
            snaps[j].surface,
        ) by {
            if x < b.len() {
                assert(all[x] == b[x]);
            } else {
                assert(all[x] == more[x - b.len()]);
            }
        }
        assert(f.refresh_all(snaps, clients).events =~= f.events + a + step(f, snaps[j], clients)
            + all);
        (a, all)
    } else {
        let a = lemma_earlier(f, rest, clients, last.surface);
        assert(!manager::listed(rest, last.surface)) by {
            if manager::listed(rest, last.surface) {
                let i = choose|i: int|
                    0 <= i < rest.len() && (#[trigger] rest[i]).surface == last.surface;
                assert(snaps[i].surface == snaps[n - 1].surface);
            }
        }
        assert(r.knows(last.surface) <==> f.knows(last.surface));
        assert(f.knows(last.surface) ==> r.told(last.surface) == f.told(last.surface));
        assert(step(r, last, clients) == step(f, last, clients));
        assert(f.refresh_all(snaps, clients).events =~= f.events + a + step(f, last, clients)
            + Seq::empty());
        (a, Seq::empty())
    }
}

/// Bringing toplevels up to date speaks of no other.
proof fn lemma_earlier(
    f: ForeignView,
    snaps: Seq<SnapshotView>,
    clients: ClientsView,
    s: u64,
) -> (part: Seq<EventView>)
    requires
        f.wf(),
        manager::snapshots_distinct(snaps),
        forall|i: int| 0 <= i < snaps.len() ==> (#[trigger] snaps[i]).surface != s,
    ensures
        f.refresh_all(snaps, clients).events == f.events + part,
        forall|x: int| 0 <= x < part.len() ==> subject(#[trigger] part[x]) != Some(s),
    decreases snaps.len(),
{
    if snaps.len() == 0 {
        assert(f.events + Seq::<EventView>::empty() =~= f.events);
        Seq::empty()
    } else {
        let rest = snaps.drop_last();
        let last = snaps.last();
        let n = snaps.len() as int;
        assert(snaps[n - 1] == last);
        assert(forall|i: int| 0 <= i < rest.len() ==> #[trigger] rest[i] == snaps[i]);
        assert(manager::snapshots_distinct(rest));
        lemma_refresh_all(f, rest, clients);
        let r = f.refresh_all(rest, clients);
        lemma_step(r, last, clients);
        let a = lemma_earlier(f, rest, clients, s);
        let more = step(r, last, clients);
        let all = a + more;
        assert forall|x: int| 0 <= x < all.len() implies subject(#[trigger] all[x]) != Some(s) by {
            if x < a.len() {
                assert(all[x] == a[x]);
            } else {
                assert(all[x] == more[x - a.len()]);
            }
        }
        assert(f.refresh_all(snaps, clients).events =~= f.events + all);
        all
    }
}

/// What is said of the toplevels that are gone is said of none that is there.
pub(crate) proof fn lemma_gone_subjects(toplevels: Seq<DataView>, snaps: Seq<SnapshotView>, s: u64)
    requires
        forall|i: int| 0 <= i < toplevels.len() ==> (#[trigger] toplevels[i]).owns_handles(),
        exists|j: int| 0 <= j < snaps.len() && (#[trigger] snaps[j]).surface == s,
    ensures
        forall|x: int|
            0 <= x < manager::gone_events(toplevels, snaps).len() ==> subject(
                #[trigger] manager::gone_events(toplevels, snaps)[x],
            ) != Some(s),
    decreases toplevels.len(),
{
    if toplevels.len() > 0 {
        let rest = toplevels.drop_last();
        let last = toplevels.last();
        assert(forall|i: int| 0 <= i < rest.len() ==> #[trigger] rest[i] == toplevels[i]);
        assert(toplevels[toplevels.len() - 1] == last);
        lemma_gone_subjects(rest, snaps, s);
        let a = manager::gone_events(rest, snaps);
        let b = last.close_events();
        let all = manager::gone_events(toplevels, snaps);
        assert(last.owns_handles());
        assert forall|x: int| 0 <= x < b.len() implies subject(#[trigger] b[x]) == Some(
            last.surface,
        ) by {
            if x > 0 {
                assert(last.instances[x - 1].handle.surface == last.surface);
            }
        }
        if !manager::listed(snaps, last.surface) {
            assert(last.surface != s);
            assert(all == a + b);
        } else {
            assert(all =~= a);
        }
        assert forall|x: int| 0 <= x < all.len() implies subject(#[trigger] all[x]) != Some(s) by {
            if x < a.len() {
                assert(all[x] == a[x]);
            } else {
                assert(all[x] == b[x - a.len()]);
            }
        }
    }
}

/// What a refresh says, in parts: nothing else of the toplevel of `snaps[j]` than what bringing it up
/// to date says.
pub(crate) proof fn lemma_refresh_parts(
    f: ForeignView,
    snaps: Seq<SnapshotView>,
    clients: ClientsView,
    j: int,
) -> (parts: (Seq<EventView>, Seq<EventView>))
    requires
        f.wf(),
        manager::snapshots_distinct(snaps),
        0 <= j < snaps.len(),
    ensures
        f.apply(snaps, clients).events == f.events + parts.0 + step(f, snaps[j], clients) + parts.1,
        forall|x: int|
            0 <= x < parts.0.len() ==> subject(#[trigger] parts.0[x]) != Some(snaps[j].surface),
        forall|x: int|
            0 <= x < parts.1.len() ==> subject(#[trigger] parts.1[x]) != Some(snaps[j].surface),
{
    let c = f.close_gone(snaps);
    let s = snaps[j].surface;
    lemma_remaining(f.toplevels, snaps);
    assert(manager::listed(snaps, s));
    assert forall|i: int| 0 <= i < c.toplevels.len() implies (
    #[trigger] c.toplevels[i]).owns_handles() by {
        let d = c.toplevels[i];
        let k = manager::index_of(f.toplevels, d.surface);
        assert(f.toplevels[k].owns_handles());
    }
    assert(c.wf());
    let (a, b) = lemma_step_isolated(c, snaps, clients, j);
    let gone = manager::gone_events(f.toplevels, snaps);
    lemma_gone_subjects(f.toplevels, snaps, s);
    assert(c.knows(s) <==> f.knows(s)) by {
        assert(manager::known(manager::remaining(f.toplevels, snaps), s) <==> manager::known(
            f.toplevels,
            s,
        ) && manager::listed(snaps, s));
    }
    if f.knows(s) {
        let k = manager::index_of(c.toplevels, s);
        assert(c.toplevels[k].surface == s);
        assert(c.toplevels[k] == manager::remaining(f.toplevels, snaps)[k]);
    }
    assert(step(c, snaps[j], clients) == step(f, snaps[j], clients));
    let before = gone + a;
    assert forall|x: int| 0 <= x < before.len() implies subject(#[trigger] before[x]) != Some(
        s,
    ) by {
        if x < gone.len() {
            assert(before[x] == gone[x]);
        } else {
            assert(before[x] == a[x - gone.len()]);
        }
    }
    assert(f.apply(snaps, clients).events =~= f.events + before + step(f, snaps[j], clients) + b);
    (before, b)
}

/// Whether no two snapshots are of one toplevel.
pub open spec fn one_each(snaps: Seq<SnapshotView>) -> bool {
    forall|i: int, j: int|
        #![trigger snaps[i], snaps[j]]
        0 <= i < snaps.len() && 0 <= j < snaps.len() && i != j ==> snaps[i].surface
            != snaps[j].surface
}

/// What a refresh adds to what is to be told.
pub open spec fn news(f: ForeignView, snaps: Seq<SnapshotView>, clients: ClientsView) -> Seq<
    EventView,
> {
    f.apply(snaps, clients).events.skip(f.events.len() as int)
}

/// After a refresh, a client that listens to the events of one of its handles knows of the toplevel
/// what is: its title, its application, its states and its outputs, whichever of them changed. If any
/// of them did, the last that it hears is that it is complete; if none did, it hears nothing.
pub proof fn law_refresh_teaches_changes(
    f: ForeignView,
    snaps: Seq<SnapshotView>,
    clients: ClientsView,
    t: int,
    i: int,
    j: int,
)
    requires
        f.wf(),
        one_each(snaps),
        0 <= t < f.toplevels.len(),
        0 <= i < f.toplevels[t].instances.len(),
        0 <= j < snaps.len(),
        snaps[j].surface == f.toplevels[t].surface,
    ensures
        ({
            let d = f.toplevels[t];
            let h = d.instances[i].handle;
            &&& f.events.is_prefix_of(f.apply(snaps, clients).events)
            &&& replay(known_by(d, i), news(f, snaps, clients), h) == should_know(
                d,
                i,
                snaps[j],
                clients,
            )
            &&& last_word(news(f, snaps, clients), h) == if same_as(d, snaps[j]) {
                None
            } else {
                Some(EventView::WlrDone { handle: h })
            }
        }),
{
    let d = f.toplevels[t];
    let h = d.instances[i].handle;
    let k = known_by(d, i);
    assert(manager::snapshots_distinct(snaps));
    let (a, b) = lemma_refresh_parts(f, snaps, clients, j);
    lemma_index(f.toplevels, t);
    let x = step(f, snaps[j], clients);
    assert(f.told(d.surface) == d);
    assert(d.owns_handles());
    assert(h.surface == d.surface);
    lemma_update_teaches(d, i, snaps[j], clients);
    assert(x == d.update_events(snaps[j], clients));
    let new = news(f, snaps, clients);
    assert(new =~= a + x + b);
    assert(f.events =~= f.apply(snaps, clients).events.take(f.events.len() as int));
    lemma_not_addressed(a, h);
    lemma_not_addressed(b, h);
    lemma_unheard(k, a, h);
    lemma_unheard(replay(k, a + x, h), b, h);
    lemma_replay_add(k, a + x, b, h);
    lemma_replay_add(k, a, x, h);
    lemma_last_word_add(a + x, b, h);
    lemma_last_word_add(a, x, h);
}

/// Events about other toplevels are addressed to other handles.
pub(crate) proof fn lemma_not_addressed(events: Seq<EventView>, h: WlrHandle)
    requires
        forall|x: int| 0 <= x < events.len() ==> subject(#[trigger] events[x]) != Some(h.surface),
    ensures
        forall|x: int| 0 <= x < events.len() ==> addressee(#[trigger] events[x]) != Some(h),
{
    assert forall|x: int| 0 <= x < events.len() implies addressee(#[trigger] events[x]) != Some(
        h,
    ) by {
        assert(subject(events[x]) != Some(h.surface));
    }
}

/// After a refresh, a client that listens to the ext list knows the title and the application of
/// every toplevel there is, whether it was listed before or not.
pub proof fn law_refresh_teaches_ext_list(
    f: ForeignView,
    snaps: Seq<SnapshotView>,
    clients: ClientsView,
    j: int,
    before: (Seq<char>, Seq<char>),
)
    requires
        f.wf(),
        one_each(snaps),
        0 <= j < snaps.len(),
        forall|t: int|
            0 <= t < f.toplevels.len() && (#[trigger] f.toplevels[t]).surface == snaps[j].surface
                ==> before == (f.toplevels[t].title, f.toplevels[t].app_id),
    ensures
        replay_ext(before, news(f, snaps, clients), snaps[j].surface) == (
            snaps[j].title,
            snaps[j].app_id,
        ),
        (forall|t: int|
            0 <= t < f.toplevels.len() ==> (#[trigger] f.toplevels[t]).surface != snaps[j].surface)
            ==> news(f, snaps, clients).contains(
            EventView::ExtNew {
                surface: snaps[j].surface,
                title: snaps[j].title,
                app_id: snaps[j].app_id,
            },
        ),
{
    let s = snaps[j].surface;
    assert(manager::snapshots_distinct(snaps));
    let (a, b) = lemma_refresh_parts(f, snaps, clients, j);
    let x = step(f, snaps[j], clients);
    let new = news(f, snaps, clients);
    assert(new =~= a + x + b);
    lemma_unheard_ext(before, a, s);
    lemma_replay_ext_add(before, a + x, b, s);
    lemma_replay_ext_add(before, a, x, s);
    lemma_unheard_ext(replay_ext(before, a + x, s), b, s);
    if f.knows(s) {
        let t = manager::index_of(f.toplevels, s);
        assert(f.toplevels[t].owns_handles());
        lemma_update_teaches_ext(f.toplevels[t], snaps[j], clients);
    } else {
        let e = EventView::ExtNew { surface: s, title: snaps[j].title, app_id: snaps[j].app_id };
        let rest = snaps[j].unannounced().announce_all_events(f.managers, clients);
        lemma_replay_ext_add(before, seq![e], rest, s);
        assert(replay_ext(before, seq![e], s) == (snaps[j].title, snaps[j].app_id)) by {
            reveal_with_fuel(replay_ext, 2);
            assert(seq![e].drop_last() =~= Seq::empty());
        }
        lemma_announced_addresses(snaps[j].unannounced(), f.managers, clients);
        assert forall|y: int| 0 <= y < rest.len() implies !(#[trigger] rest[y] is ExtNew) && !(
        rest[y] is ExtTitle) && !(rest[y] is ExtAppId) by {
            let m = choose|m: int|
                0 <= m < f.managers.len() && addressee(rest[y]) == Some(
                    WlrHandle { manager: (#[trigger] f.managers[m]).id, surface: s },
                );
            assert(addressee(rest[y]) is Some);
        }
        lemma_quiet_ext(replay_ext(before, seq![e], s), rest, s);
        assert(new[a.len() as int] == e);
    }
    if forall|t: int|
        0 <= t < f.toplevels.len() ==> (#[trigger] f.toplevels[t]).surface != s {
        assert(!f.knows(s));
    }
}

/// A toplevel that appears is announced to every manager that watches and whose client is connected:
/// from what it hears the client knows the title, the application, the states and the outputs, and
/// the last that it hears is that it is complete. A manager whose client is gone hears nothing.
pub proof fn law_refresh_announces_new(
    f: ForeignView,
    snaps: Seq<SnapshotView>,
    clients: ClientsView,
    j: int,
    m: int,
    before: Knowledge,
)
    requires
        f.wf(),
        one_each(snaps),
        0 <= j < snaps.len(),
        0 <= m < f.managers.len(),
        forall|t: int|
            0 <= t < f.toplevels.len() ==> (#[trigger] f.toplevels[t]).surface != snaps[j].surface,
        before.outputs.len() == 0,
    ensures
        ({
            let h = WlrHandle { manager: f.managers[m].id, surface: snaps[j].surface };
            let live = clients.live.contains(f.managers[m].client);
            let new = news(f, snaps, clients);
            &&& live ==> new.contains(EventView::WlrNew { handle: h })
            &&& live ==> replay(before, new, h) == (Knowledge {
                title: snaps[j].title,
                app_id: snaps[j].app_id,
                states: snaps[j].states,
                outputs: bound(clients.bindings, snaps[j].output, f.managers[m].client),
            })
            &&& last_word(new, h) == if live {
                Some(EventView::WlrDone { handle: h })
            } else {
                None
            }
        }),
{
    let s = snaps[j].surface;
    let h = WlrHandle { manager: f.managers[m].id, surface: s };
    assert(manager::snapshots_distinct(snaps));
    let (a, b) = lemma_refresh_parts(f, snaps, clients, j);
    let x = step(f, snaps[j], clients);
    let new = news(f, snaps, clients);
    assert(new =~= a + x + b);
    assert(!f.knows(s));
    let e = EventView::ExtNew { surface: s, title: snaps[j].title, app_id: snaps[j].app_id };
    let rest = snaps[j].unannounced().announce_all_events(f.managers, clients);
    assert(x == seq![e] + rest);
    lemma_not_addressed(a, h);
    lemma_not_addressed(b, h);
    lemma_unheard(before, a, h);
    lemma_unheard(replay(before, a + x, h), b, h);
    lemma_replay_add(before, a + x, b, h);
    lemma_replay_add(before, a, x, h);
    lemma_replay_add(before, seq![e], rest, h);
    assert(forall|y: int| 0 <= y < seq![e].len() ==> addressee(#[trigger] seq![e][y]) is None);
    lemma_unheard(before, seq![e], h);
    lemma_announcements_teach(snaps[j].unannounced(), f.managers, clients, m, before);
    lemma_last_word_add(a + x, b, h);
    lemma_last_word_add(a, x, h);
    lemma_last_word_add(seq![e], rest, h);
    assert(before.outputs + bound(clients.bindings, snaps[j].output, f.managers[m].client)
        =~= bound(clients.bindings, snaps[j].output, f.managers[m].client));
    if clients.live.contains(f.managers[m].client) {
        let y = rest.index_of(EventView::WlrNew { handle: h });
        assert(new[a.len() + 1 + y] == rest[y]);
    }
}

} // verus!
