//! What one toplevel has to say to the clients: when it appears, changes and goes.

use vstd::prelude::*;
use crate::handlers::foreign_toplevel::data::{
    contains_id, copy_bytes, same_bytes, Clients, ClientsView, DataView, EventQueue, EventView,
    ForeignEvent, InstanceView, OutputBinding, SnapshotView, ToplevelData, ToplevelSnapshot,
    WlrHandle, WlrInstance,
};

verus! {

/// The events by which `handle` enters `outputs`.
pub open spec fn enters(handle: WlrHandle, outputs: Seq<u64>) -> Seq<EventView> {
    outputs.map_values(|output: u64| EventView::WlrOutputEnter { handle, output })
}

/// The events by which `handle` leaves `outputs`.
pub open spec fn leaves(handle: WlrHandle, outputs: Seq<u64>) -> Seq<EventView> {
    outputs.map_values(|output: u64| EventView::WlrOutputLeave { handle, output })
}

/// `event` if `happened`, else nothing.
pub open spec fn event_if(happened: bool, event: EventView) -> Seq<EventView> {
    if happened {
        seq![event]
    } else {
        Seq::empty()
    }
}

impl ClientsView {
    /// The output objects of `client` for `output`.
    pub open spec fn client_outputs(self, output: Option<u64>, client: u64) -> Seq<u64> {
        match output {
            Some(output) => self.bindings.filter(
                |b: OutputBinding| b.output == output && b.client == client,
            ).map_values(|b: OutputBinding| b.resource),
            None => Seq::empty(),
        }
    }

    /// The output objects of `client` for `output`, none if the client is gone.
    pub open spec fn live_client_outputs(self, output: Option<u64>, client: u64) -> Seq<u64> {
        if self.live.contains(client) {
            self.client_outputs(output, client)
        } else {
            Seq::empty()
        }
    }

    /// The output objects among `outputs` that still exist.
    pub open spec fn existing(self, outputs: Seq<u64>) -> Seq<u64> {
        outputs.filter(|o: u64| self.live_resources.contains(o))
    }
}

impl DataView {
    /// The handle of this toplevel for the manager `manager`.
    pub open spec fn handle(self, manager: u64) -> WlrHandle {
        WlrHandle { manager, surface: self.surface }
    }

    /// This toplevel with a handle for the manager `manager` of `client`.
    pub open spec fn announced(self, manager: u64, client: u64, clients: ClientsView) -> DataView {
        DataView {
            instances: self.instances.push(
                InstanceView {
                    handle: self.handle(manager),
                    client,
                    outputs: clients.client_outputs(self.output, client),
                },
            ),
            ..self
        }
    }

    /// What the manager `manager` of `client` hears of this toplevel first: everything.
    pub open spec fn announce_events(
        self,
        manager: u64,
        client: u64,
        clients: ClientsView,
    ) -> Seq<EventView> {
        let handle = self.handle(manager);
        seq![
            EventView::WlrNew { handle },
            EventView::WlrTitle { handle, title: self.title },
            EventView::WlrAppId { handle, app_id: self.app_id },
            EventView::WlrState { handle, states: self.states },
        ] + enters(handle, clients.client_outputs(self.output, client)) + seq![
            EventView::WlrDone { handle },
        ]
    }

    /// What the clients hear when this toplevel goes.
    pub open spec fn close_events(self) -> Seq<EventView> {
        event_if(
            self.ext_handle is Some,
            EventView::ExtClosed { surface: self.ext_handle->0 },
        ) + self.instances.map_values(
            |i: InstanceView| EventView::WlrClosed { handle: i.handle },
        )
    }

    /// Whether the clients were told the same as `snap` says.
    pub open spec fn says(self, snap: SnapshotView) -> bool {
        &&& self.surface == snap.surface
        &&& self.title == snap.title
        &&& self.app_id == snap.app_id
        &&& self.states == snap.states
        &&& self.output == snap.output
    }

    /// Whether anything that `snap` says is news.
    pub open spec fn outdated(self, snap: SnapshotView) -> bool {
        ||| self.title != snap.title
        ||| self.app_id != snap.app_id
        ||| self.states != snap.states
        ||| self.output != snap.output
    }

    /// What the ext list says of the change to `snap`.
    pub open spec fn ext_update_events(self, snap: SnapshotView) -> Seq<EventView> {
        if self.ext_handle is Some && (self.title != snap.title || self.app_id != snap.app_id) {
            let surface = self.ext_handle->0;
            event_if(
                self.title != snap.title,
                EventView::ExtTitle { surface, title: snap.title },
            ) + event_if(
                self.app_id != snap.app_id,
                EventView::ExtAppId { surface, app_id: snap.app_id },
            ) + seq![EventView::ExtDone { surface }]
        } else {
            Seq::empty()
        }
    }

    /// What the handle `i` of this toplevel says of the change to `snap`.
    pub open spec fn instance_update_events(
        self,
        i: InstanceView,
        snap: SnapshotView,
        clients: ClientsView,
    ) -> Seq<EventView> {
        let handle = i.handle;
        event_if(
            self.title != snap.title,
            EventView::WlrTitle { handle, title: snap.title },
        ) + event_if(
            self.app_id != snap.app_id,
            EventView::WlrAppId { handle, app_id: snap.app_id },
        ) + event_if(
            self.states != snap.states,
            EventView::WlrState { handle, states: snap.states },
        ) + (if self.output != snap.output {
            leaves(handle, i.outputs) + enters(
                handle,
                clients.live_client_outputs(snap.output, i.client),
            )
        } else {
            Seq::empty()
        }) + seq![EventView::WlrDone { handle }]
    }

    /// What the first `n` handles of this toplevel say of the change to `snap`.
    pub open spec fn wlr_update_events(
        self,
        n: int,
        snap: SnapshotView,
        clients: ClientsView,
    ) -> Seq<EventView>
        decreases n,
    {
        if n <= 0 {
            Seq::empty()
        } else {
            self.wlr_update_events(n - 1, snap, clients) + self.instance_update_events(
                self.instances[n - 1],
                snap,
                clients,
            )
        }
    }

    /// Everything the clients hear of the change to `snap`; nothing if it says no news.
    pub open spec fn update_events(self, snap: SnapshotView, clients: ClientsView) -> Seq<
        EventView,
    > {
        if self.outdated(snap) {
            self.ext_update_events(snap) + self.wlr_update_events(
                self.instances.len() as int,
                snap,
                clients,
            )
        } else {
            Seq::empty()
        }
    }

    /// The handle `i` of this toplevel after the change to `snap`.
    pub open spec fn updated_instance(
        self,
        i: InstanceView,
        snap: SnapshotView,
        clients: ClientsView,
    ) -> InstanceView {
        InstanceView {
            outputs: clients.existing(
                if self.output != snap.output {
                    clients.live_client_outputs(snap.output, i.client)
                } else {
                    i.outputs
                },
            ),
            ..i
        }
    }

    /// This toplevel after the change to `snap`.
    pub open spec fn updated(self, snap: SnapshotView, clients: ClientsView) -> DataView {
        DataView {
            surface: self.surface,
            title: snap.title,
            app_id: snap.app_id,
            states: snap.states,
            output: snap.output,
            instances: self.instances.map_values(
                |i: InstanceView| self.updated_instance(i, snap, clients),
            ),
            ext_handle: self.ext_handle,
        }
    }
}

impl SnapshotView {
    /// A toplevel that no manager has heard of yet.
    pub open spec fn unannounced(self) -> DataView {
        DataView {
            surface: self.surface,
            title: self.title,
            app_id: self.app_id,
            states: self.states,
            output: self.output,
            instances: Seq::empty(),
            ext_handle: Some(self.surface),
        }
    }
}

impl Clients {
    /// The output objects of `client` for `output`.
    pub fn client_outputs(&self, output: Option<u64>, client: u64) -> (r: Vec<u64>)
        ensures
            r@ == self@.client_outputs(output, client),
    {
        let mut r: Vec<u64> = Vec::new();
        let output: u64 = match output {
            Some(output) => output,
            None => {
                return r;
            },
        };
        let ghost pred = |b: OutputBinding| b.output == output && b.client == client;
        let ghost name = |b: OutputBinding| b.resource;
        let n: usize = self.bindings.len();
        let mut i: usize = 0;
        proof {
            reveal(Seq::filter);
            assert(self@.bindings.take(0).filter(pred).map_values(name) =~= Seq::empty());
        }
        while i < n
            invariant
                n == self@.bindings.len(),
                i <= n,
                pred == (|b: OutputBinding| b.output == output && b.client == client),
                name == (|b: OutputBinding| b.resource),
                r@ == self@.bindings.take(i as int).filter(pred).map_values(name),
            decreases n - i,
        {
            let b = self.bindings[i];
            proof {
                let bs = self@.bindings.take(i + 1);
                assert(bs.drop_last() =~= self@.bindings.take(i as int));
                assert(bs.last() == b);
                reveal(Seq::filter);
                if pred(b) {
                    assert(bs.filter(pred) == bs.drop_last().filter(pred).push(b));
                    assert(bs.filter(pred).map_values(name) =~= bs.drop_last().filter(
                        pred,
                    ).map_values(name).push(b.resource));
                }
            }
            if b.output == output && b.client == client {
                r.push(b.resource);
            }
            i = i + 1;
        }
        assert(self@.bindings.take(n as int) =~= self@.bindings);
        r
    }

    /// The output objects of `client` for `output`, none if the client is gone.
    fn live_client_outputs(&self, output: Option<u64>, client: u64) -> (r: Vec<u64>)
        ensures
            r@ == self@.live_client_outputs(output, client),
    {
        if contains_id(&self.live, client) {
            self.client_outputs(output, client)
        } else {
            Vec::new()
        }
    }

    /// The output objects among `outputs` that still exist.
    fn existing(&self, outputs: &Vec<u64>) -> (r: Vec<u64>)
        ensures
            r@ == self@.existing(outputs@),
    {
        let ghost pred = |o: u64| self@.live_resources.contains(o);
        let mut r: Vec<u64> = Vec::new();
        let n: usize = outputs.len();
        let mut i: usize = 0;
        proof {
            reveal(Seq::filter);
            assert(outputs@.take(0).filter(pred) =~= Seq::empty());
        }
        while i < n
            invariant
                n == outputs@.len(),
                i <= n,
                pred == (|o: u64| self@.live_resources.contains(o)),
                r@ == outputs@.take(i as int).filter(pred),
            decreases n - i,
        {
            proof {
                let os = outputs@.take(i + 1);
                assert(os.drop_last() =~= outputs@.take(i as int));
                assert(os.last() == outputs@[i as int]);
                reveal(Seq::filter);
            }
            if contains_id(&self.live_resources, outputs[i]) {
                r.push(outputs[i]);
            }
            i = i + 1;
        }
        assert(outputs@.take(n as int) =~= outputs@);
        r
    }
}

/// Queues the events by which `handle` enters `outputs`.
fn push_enters(events: &mut EventQueue, handle: WlrHandle, outputs: &Vec<u64>)
    ensures
        final(events)@ == old(events)@ + enters(
            handle,
            outputs@,
        ),
{
    let ghost before = events@;
    let n: usize = outputs.len();
    let mut i: usize = 0;
    assert(before + enters(handle, outputs@.take(0)) =~= before);
    while i < n
        invariant
            n == outputs@.len(),
            i <= n,
            events@ == before + enters(
                handle,
                outputs@.take(i as int),
            ),
        decreases n - i,
    {
        events.push(ForeignEvent::WlrOutputEnter { handle, output: outputs[i] });
        proof {
            assert(outputs@.take(i + 1) =~= outputs@.take(i as int).push(outputs@[i as int]));
            assert(enters(handle, outputs@.take(i + 1)) =~= enters(
                handle,
                outputs@.take(i as int),
            ).push(EventView::WlrOutputEnter { handle, output: outputs@[i as int] }));
            assert((before + enters(handle, outputs@.take(i as int))).push(
                EventView::WlrOutputEnter { handle, output: outputs@[i as int] },
            ) =~= before + enters(handle, outputs@.take(i + 1)));
        }
        i = i + 1;
    }
    assert(outputs@.take(n as int) =~= outputs@);
}

/// Queues the events by which `handle` leaves `outputs`.
fn push_leaves(events: &mut EventQueue, handle: WlrHandle, outputs: &Vec<u64>)
    ensures
        final(events)@ == old(events)@ + leaves(
            handle,
            outputs@,
        ),
{
    let ghost before = events@;
    let n: usize = outputs.len();
    let mut i: usize = 0;
    assert(before + leaves(handle, outputs@.take(0)) =~= before);
    while i < n
        invariant
            n == outputs@.len(),
            i <= n,
            events@ == before + leaves(
                handle,
                outputs@.take(i as int),
            ),
        decreases n - i,
    {
        events.push(ForeignEvent::WlrOutputLeave { handle, output: outputs[i] });
        proof {
            assert(outputs@.take(i + 1) =~= outputs@.take(i as int).push(outputs@[i as int]));
            assert(leaves(handle, outputs@.take(i + 1)) =~= leaves(
                handle,
                outputs@.take(i as int),
            ).push(EventView::WlrOutputLeave { handle, output: outputs@[i as int] }));
            assert((before + leaves(handle, outputs@.take(i as int))).push(
                EventView::WlrOutputLeave { handle, output: outputs@[i as int] },
            ) =~= before + leaves(handle, outputs@.take(i + 1)));
        }
        i = i + 1;
    }
    assert(outputs@.take(n as int) =~= outputs@);
}

/// The differences between what the clients were told and what is.
struct News {
    title: bool,
    app_id: bool,
    states: bool,
    output: bool,
}

impl News {
    spec fn between(self, data: DataView, snap: SnapshotView) -> bool {
        &&& self.title == (data.title != snap.title)
        &&& self.app_id == (data.app_id != snap.app_id)
        &&& self.states == (data.states != snap.states)
        &&& self.output == (data.output != snap.output)
    }
}

impl ToplevelData {
    /// Gives the manager `manager` of `client` a handle for this toplevel and tells it everything.
    pub fn add_wlr_instance(
        &mut self,
        manager: u64,
        client: u64,
        clients: &Clients,
        events: &mut EventQueue,
    )
        ensures
            final(self)@ == old(self)@.announced(manager, client, clients@),
            final(events)@ == old(events)@ + old(
                self,
            )@.announce_events(manager, client, clients@),
    {
        let ghost before = events@;
        let handle = WlrHandle { manager, surface: self.surface };
        events.push(ForeignEvent::WlrNew { handle });
        events.push(ForeignEvent::WlrTitle { handle, title: self.title.clone() });
        events.push(ForeignEvent::WlrAppId { handle, app_id: self.app_id.clone() });
        events.push(ForeignEvent::WlrState { handle, states: copy_bytes(&self.states) });
        let outputs = clients.client_outputs(self.output, client);
        push_enters(events, handle, &outputs);
        events.push(ForeignEvent::WlrDone { handle });
        self.wlr_management_instances.push(WlrInstance { handle, client, outputs });
        proof {
            assert(events@ =~= before + old(
                self,
            )@.announce_events(manager, client, clients@));
            assert(self@.instances =~= old(self)@.announced(manager, client, clients@).instances);
        }
    }

    /// Tells the clients that this toplevel is gone.
    pub fn close(&self, events: &mut EventQueue)
        ensures
            final(events)@ == old(events)@ + self@.close_events(),
    {
        let ghost before = events@;
        let ghost first = event_if(
            self@.ext_handle is Some,
            EventView::ExtClosed { surface: self@.ext_handle->0 },
        );
        let ghost closed = |i: InstanceView| EventView::WlrClosed { handle: i.handle };
        if let Some(surface) = self.ext_handle {
            events.push(ForeignEvent::ExtClosed { surface });
        }
        let n: usize = self.wlr_management_instances.len();
        let mut i: usize = 0;
        assert(events@ =~= before + first
            + self@.instances.take(0).map_values(closed));
        while i < n
            invariant
                n == self@.instances.len(),
                i <= n,
                closed == (|i: InstanceView| EventView::WlrClosed { handle: i.handle }),
                events@ == before + first
                    + self@.instances.take(i as int).map_values(closed),
            decreases n - i,
        {
            let handle = self.wlr_management_instances[i].handle;
            events.push(ForeignEvent::WlrClosed { handle });
            proof {
                assert(self@.instances[i as int].handle == handle);
                assert(self@.instances.take(i + 1).map_values(closed) =~= self@.instances.take(
                    i as int,
                ).map_values(closed).push(EventView::WlrClosed { handle }));
                assert(events@ =~= before
                    + first + self@.instances.take(i + 1).map_values(closed));
            }
            i = i + 1;
        }
        proof {
            assert(self@.instances.take(n as int) =~= self@.instances);
            assert(before + first + self@.instances.map_values(closed) =~= before
                + self@.close_events());
        }
    }

    /// Tells one handle of this toplevel the news in `snap`.
    fn tell_instance(
        &self,
        instance: &WlrInstance,
        news: &News,
        snap: &ToplevelSnapshot,
        clients: &Clients,
        events: &mut EventQueue,
    )
        requires
            news.between(self@, snap@),
        ensures
            final(events)@ == old(events)@ + self@.instance_update_events(instance@, snap@, clients@),
    {
        let ghost before = events@;
        let handle = instance.handle;
        if news.title {
            events.push(ForeignEvent::WlrTitle { handle, title: snap.title.clone() });
        }
        if news.app_id {
            events.push(ForeignEvent::WlrAppId { handle, app_id: snap.app_id.clone() });
        }
        if news.states {
            events.push(ForeignEvent::WlrState { handle, states: copy_bytes(&snap.states) });
        }
        if news.output {
            push_leaves(events, handle, &instance.outputs);
            let entered = clients.live_client_outputs(snap.output, instance.client);
            push_enters(events, handle, &entered);
        }
        events.push(ForeignEvent::WlrDone { handle });
        assert(events@ =~= before
            + self@.instance_update_events(instance@, snap@, clients@));
    }

    /// Tells the clients the news in `snap`, and nothing if there is none. Returns what they have
    /// been told now.
    pub fn update(
        &self,
        snap: &ToplevelSnapshot,
        clients: &Clients,
        events: &mut EventQueue,
    ) -> (r: ToplevelData)
        ensures
            r@ == self@.updated(snap@, clients@),
            final(events)@ == old(events)@ + self@.update_events(snap@, clients@),
    {
        let ghost before = events@;
        let news = News {
            title: !(self.title == snap.title),
            app_id: !(self.app_id == snap.app_id),
            states: !same_bytes(&self.states, &snap.states),
            output: self.output != snap.output,
        };
        if news.title || news.app_id {
            if let Some(surface) = self.ext_handle {
                if news.title {
                    events.push(ForeignEvent::ExtTitle { surface, title: snap.title.clone() });
                }
                if news.app_id {
                    events.push(ForeignEvent::ExtAppId { surface, app_id: snap.app_id.clone() },
                    );
                }
                events.push(ForeignEvent::ExtDone { surface });
            }
        }
        let ghost ext = before + self@.ext_update_events(snap@);
        assert(events@ =~= ext);
        let outdated: bool = news.title || news.app_id || news.states || news.output;
        let mut instances: Vec<WlrInstance> = Vec::new();
        let n: usize = self.wlr_management_instances.len();
        let mut i: usize = 0;
        while i < n
            invariant
                n == self@.instances.len(),
                i <= n,
                news.between(self@, snap@),
                outdated == self@.outdated(snap@),
                instances@.len() == i,
                forall|j: int|
                    0 <= j < i ==> (#[trigger] instances@[j])@ == self@.updated_instance(
                        self@.instances[j],
                        snap@,
                        clients@,
                    ),
                events@ == ext + (
                if outdated {
                    self@.wlr_update_events(i as int, snap@, clients@)
                } else {
                    Seq::empty()
                }),
            decreases n - i,
        {
            let instance = &self.wlr_management_instances[i];
            assert(instance@ == self@.instances[i as int]);
            if outdated {
                self.tell_instance(instance, &news, snap, clients, events);
                assert(events@ =~= ext
                    + self@.wlr_update_events(i + 1, snap@, clients@));
            }
            let outputs = if news.output {
                let entered = clients.live_client_outputs(snap.output, instance.client);
                clients.existing(&entered)
            } else {
                clients.existing(&instance.outputs)
            };
            instances.push(
                WlrInstance { handle: instance.handle, client: instance.client, outputs },
            );
            i = i + 1;
        }
        let r = ToplevelData {
            surface: self.surface,
            title: snap.title.clone(),
            app_id: snap.app_id.clone(),
            states: copy_bytes(&snap.states),
            output: snap.output,
            wlr_management_instances: instances,
            ext_handle: self.ext_handle,
        };
        proof {
            assert(r@.instances =~= self@.updated(snap@, clients@).instances);
            assert(events@ =~= before
                + self@.update_events(snap@, clients@));
        }
        r
    }
}

} // verus!
