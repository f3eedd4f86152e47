//! What the toplevel list is made of.

use vstd::prelude::*;

verus! {

/// Marks the protocol objects that belong to the toplevel list.
#[derive(Clone, Copy, Debug, PartialEq, Eq, Default)]
pub struct ForeignToplevelUdata;

/// The handle that the manager `manager` got for the toplevel `surface`.
#[derive(Clone, Copy, Debug, PartialEq, Eq, Structural)]
pub struct WlrHandle {
    pub manager: u64,
    pub surface: u64,
}

/// A wlr manager that a client bound.
#[derive(Clone, Copy, Debug, PartialEq, Eq, Structural)]
pub struct Manager {
    pub id: u64,
    pub client: u64,
}

/// One client's handle of a toplevel.
#[derive(Debug, PartialEq, Eq)]
pub struct WlrInstance {
    pub handle: WlrHandle,
    pub client: u64,
    /// The output objects that the client was told the toplevel is on.
    pub outputs: Vec<u64>,
}

/// What the clients have been told about a toplevel.
#[derive(Debug, PartialEq, Eq)]
pub struct ToplevelData {
    pub surface: u64,
    pub title: String,
    pub app_id: String,
    /// The payload of the wlr `state` event.
    pub states: Vec<u8>,
    /// The output the toplevel is on.
    pub output: Option<u64>,
    pub wlr_management_instances: Vec<WlrInstance>,
    /// The entry in the ext list.
    pub ext_handle: Option<u64>,
}

/// A toplevel as it is now.
#[derive(Debug, PartialEq, Eq)]
pub struct ToplevelSnapshot {
    pub surface: u64,
    pub title: String,
    pub app_id: String,
    pub states: Vec<u8>,
    pub output: Option<u64>,
}

/// An output object that a client bound.
#[derive(Clone, Copy, Debug, PartialEq, Eq, Structural)]
pub struct OutputBinding {
    pub output: u64,
    pub client: u64,
    pub resource: u64,
}

/// The connected clients and their output objects.
#[derive(Debug, PartialEq, Eq)]
pub struct Clients {
    pub live: Vec<u64>,
    pub bindings: Vec<OutputBinding>,
    /// The output objects that still exist.
    pub live_resources: Vec<u64>,
}

/// Something to tell the clients about the toplevel list.
#[derive(Debug, PartialEq, Eq)]
pub enum ForeignEvent {
    /// A new entry of the ext list.
    ExtNew { surface: u64, title: String, app_id: String },
    ExtTitle { surface: u64, title: String },
    ExtAppId { surface: u64, app_id: String },
    ExtDone { surface: u64 },
    /// An entry leaves the ext list.
    ExtClosed { surface: u64 },
    /// The handle comes into being and is announced to its manager.
    WlrNew { handle: WlrHandle },
    WlrTitle { handle: WlrHandle, title: String },
    WlrAppId { handle: WlrHandle, app_id: String },
    WlrState { handle: WlrHandle, states: Vec<u8> },
    WlrOutputEnter { handle: WlrHandle, output: u64 },
    WlrOutputLeave { handle: WlrHandle, output: u64 },
    WlrDone { handle: WlrHandle },
    WlrClosed { handle: WlrHandle },
    /// The manager will not hear of new toplevels any more.
    WlrFinished { manager: u64 },
}

/// The mathematical value of a [`WlrInstance`].
#[verifier::ext_equal]
pub struct InstanceView {
    pub handle: WlrHandle,
    pub client: u64,
    pub outputs: Seq<u64>,
}

/// The mathematical value of a [`ToplevelData`].
#[verifier::ext_equal]
pub struct DataView {
    pub surface: u64,
    pub title: Seq<char>,
    pub app_id: Seq<char>,
    pub states: Seq<u8>,
    pub output: Option<u64>,
    pub instances: Seq<InstanceView>,
    pub ext_handle: Option<u64>,
}

/// The mathematical value of a [`ToplevelSnapshot`].
#[verifier::ext_equal]
pub struct SnapshotView {
    pub surface: u64,
    pub title: Seq<char>,
    pub app_id: Seq<char>,
    pub states: Seq<u8>,
    pub output: Option<u64>,
}

/// The mathematical value of [`Clients`].
#[verifier::ext_equal]
pub struct ClientsView {
    pub live: Seq<u64>,
    pub bindings: Seq<OutputBinding>,
    pub live_resources: Seq<u64>,
}

/// The mathematical value of a [`ForeignEvent`].
#[verifier::ext_equal]
pub enum EventView {
    ExtNew { surface: u64, title: Seq<char>, app_id: Seq<char> },
    ExtTitle { surface: u64, title: Seq<char> },
    ExtAppId { surface: u64, app_id: Seq<char> },
    ExtDone { surface: u64 },
    ExtClosed { surface: u64 },
    WlrNew { handle: WlrHandle },
    WlrTitle { handle: WlrHandle, title: Seq<char> },
    WlrAppId { handle: WlrHandle, app_id: Seq<char> },
    WlrState { handle: WlrHandle, states: Seq<u8> },
    WlrOutputEnter { handle: WlrHandle, output: u64 },
    WlrOutputLeave { handle: WlrHandle, output: u64 },
    WlrDone { handle: WlrHandle },
    WlrClosed { handle: WlrHandle },
    WlrFinished { manager: u64 },
}

impl EventView {
    /// Whether the event is about the handle `h`.
    pub open spec fn concerns(self, h: WlrHandle) -> bool {
        match self {
            EventView::WlrNew { handle } => handle == h,
            EventView::WlrTitle { handle, .. } => handle == h,
            EventView::WlrAppId { handle, .. } => handle == h,
            EventView::WlrState { handle, .. } => handle == h,
            EventView::WlrOutputEnter { handle, .. } => handle == h,
            EventView::WlrOutputLeave { handle, .. } => handle == h,
            EventView::WlrDone { handle } => handle == h,
            EventView::WlrClosed { handle } => handle == h,
            _ => false,
        }
    }
}

impl ForeignEvent {
    /// Whether the event is about the handle `h`.
    pub fn concerns(&self, h: WlrHandle) -> (r: bool)
        ensures
            r == self@.concerns(h),
    {
        match self {
            ForeignEvent::WlrNew { handle } => *handle == h,
            ForeignEvent::WlrTitle { handle, .. } => *handle == h,
            ForeignEvent::WlrAppId { handle, .. } => *handle == h,
            ForeignEvent::WlrState { handle, .. } => *handle == h,
            ForeignEvent::WlrOutputEnter { handle, .. } => *handle == h,
            ForeignEvent::WlrOutputLeave { handle, .. } => *handle == h,
            ForeignEvent::WlrDone { handle } => *handle == h,
            ForeignEvent::WlrClosed { handle } => *handle == h,
            ForeignEvent::ExtNew { .. }
            | ForeignEvent::ExtTitle { .. }
            | ForeignEvent::ExtAppId { .. }
            | ForeignEvent::ExtDone { .. }
            | ForeignEvent::ExtClosed { .. }
            | ForeignEvent::WlrFinished { .. } => false,
        }
    }
}

impl View for WlrInstance {
    type V = InstanceView;

    open spec fn view(&self) -> InstanceView {
        InstanceView { handle: self.handle, client: self.client, outputs: self.outputs@ }
    }
}

/// The values of a sequence of instances.
pub open spec fn instance_views(s: Seq<WlrInstance>) -> Seq<InstanceView> {
    s.map_values(|i: WlrInstance| i@)
}

impl View for ToplevelData {
    type V = DataView;

    open spec fn view(&self) -> DataView {
        DataView {
            surface: self.surface,
            title: self.title@,
            app_id: self.app_id@,
            states: self.states@,
            output: self.output,
            instances: instance_views(self.wlr_management_instances@),
            ext_handle: self.ext_handle,
        }
    }
}

/// The values of a sequence of toplevels.
pub open spec fn data_views(s: Seq<ToplevelData>) -> Seq<DataView> {
    s.map_values(|d: ToplevelData| d@)
}

impl View for ToplevelSnapshot {
    type V = SnapshotView;

    open spec fn view(&self) -> SnapshotView {
        SnapshotView {
            surface: self.surface,
            title: self.title@,
            app_id: self.app_id@,
            states: self.states@,
            output: self.output,
        }
    }
}

/// The values of a sequence of snapshots.
pub open spec fn snapshot_views(s: Seq<ToplevelSnapshot>) -> Seq<SnapshotView> {
    s.map_values(|d: ToplevelSnapshot| d@)
}

impl View for Clients {
    type V = ClientsView;

    open spec fn view(&self) -> ClientsView {
        ClientsView {
            live: self.live@,
            bindings: self.bindings@,
            live_resources: self.live_resources@,
        }
    }
}

impl View for ForeignEvent {
    type V = EventView;

    open spec fn view(&self) -> EventView {
        match self {
            ForeignEvent::ExtNew { surface, title, app_id } => EventView::ExtNew {
                surface: *surface,
                title: title@,
                app_id: app_id@,
            },
            ForeignEvent::ExtTitle { surface, title } => EventView::ExtTitle {
                surface: *surface,
                title: title@,
            },
            ForeignEvent::ExtAppId { surface, app_id } => EventView::ExtAppId {
                surface: *surface,
                app_id: app_id@,
            },
            ForeignEvent::ExtDone { surface } => EventView::ExtDone { surface: *surface },
            ForeignEvent::ExtClosed { surface } => EventView::ExtClosed { surface: *surface },
            ForeignEvent::WlrNew { handle } => EventView::WlrNew { handle: *handle },
            ForeignEvent::WlrTitle { handle, title } => EventView::WlrTitle {
                handle: *handle,
                title: title@,
            },
            ForeignEvent::WlrAppId { handle, app_id } => EventView::WlrAppId {
                handle: *handle,
                app_id: app_id@,
            },
            ForeignEvent::WlrState { handle, states } => EventView::WlrState {
                handle: *handle,
                states: states@,
            },
            ForeignEvent::WlrOutputEnter { handle, output } => EventView::WlrOutputEnter {
                handle: *handle,
                output: *output,
            },
            ForeignEvent::WlrOutputLeave { handle, output } => EventView::WlrOutputLeave {
                handle: *handle,
                output: *output,
            },
            ForeignEvent::WlrDone { handle } => EventView::WlrDone { handle: *handle },
            ForeignEvent::WlrClosed { handle } => EventView::WlrClosed { handle: *handle },
            ForeignEvent::WlrFinished { manager } => EventView::WlrFinished { manager: *manager },
        }
    }
}

/// What the clients have yet to be told, oldest first.
#[derive(Debug, PartialEq, Eq)]
pub struct EventQueue {
    pub events: Vec<ForeignEvent>,
}

impl View for EventQueue {
    type V = Seq<EventView>;

    open spec fn view(&self) -> Seq<EventView> {
        self.events@.map_values(|e: ForeignEvent| e@)
    }
}

impl EventQueue {
    /// A queue with nothing in it.
    pub fn new() -> (r: Self)
        ensures
            r@ == Seq::<EventView>::empty(),
    {
        let r = EventQueue { events: Vec::new() };
        assert(r@ =~= Seq::<EventView>::empty());
        r
    }

    /// Appends an event.
    pub fn push(&mut self, event: ForeignEvent)
        ensures
            final(self)@ == old(self)@.push(event@),
    {
        self.events.push(event);
        assert(self@ =~= old(self)@.push(event@));
    }

    /// Takes the oldest event out.
    pub fn pop(&mut self) -> (r: Option<ForeignEvent>)
        ensures
            r is None <==> old(self)@.len() == 0,
            r is None ==> final(self)@ == old(self)@,
            r matches Some(e) ==> e@ == old(self)@[0] && final(self)@ == old(self)@.drop_first(),
    {
        if self.events.len() == 0 {
            None
        } else {
            let event = self.events.remove(0);
            assert(self@ =~= old(self)@.drop_first());
            Some(event)
        }
    }

    /// Drops every event about the handle `handle`.
    pub fn forget(&mut self, handle: WlrHandle)
        ensures
            final(self)@ == old(self)@.filter(|e: EventView| !e.concerns(handle)),
    {
        let ghost before = self@;
        let ghost pred = |e: EventView| !e.concerns(handle);
        let n: usize = self.events.len();
        let mut seen: usize = 0;
        let mut i: usize = 0;
        proof {
            reveal(Seq::filter);
            assert(self@ =~= before.take(0).filter(pred) + before.skip(0));
        }
        while seen < n
            invariant
                pred == (|e: EventView| !e.concerns(handle)),
                n == before.len(),
                seen <= n,
                i == before.take(seen as int).filter(pred).len(),
                self@ == before.take(seen as int).filter(pred) + before.skip(seen as int),
            decreases n - seen,
        {
            let ghost entry = self@;
            let ghost e = before[seen as int];
            proof {
                let es = before.take(seen + 1);
                assert(es.drop_last() =~= before.take(seen as int));
                assert(es.last() == e);
                reveal(Seq::filter);
                assert(self@[i as int] == e);
                assert(self@.len() == self.events@.len());
            }
            if !self.events[i].concerns(handle) {
                assert(self@ =~= before.take(seen + 1).filter(pred) + before.skip(seen + 1));
                i = i + 1;
            } else {
                self.events.remove(i);
                proof {
                    assert(self@ =~= entry.remove(i as int));
                    assert(self@ =~= before.take(seen + 1).filter(pred) + before.skip(seen + 1));
                }
            }
            seen = seen + 1;
        }
        proof {
            assert(before.take(n as int) =~= before);
            assert(self@ =~= before.filter(pred));
        }
    }
}

/// Whether two byte strings are the same.
pub(crate) fn same_bytes(a: &Vec<u8>, b: &Vec<u8>) -> (r: bool)
    ensures
        r == (a@ == b@),
{
    let n: usize = a.len();
    if n != b.len() {
        return false;
    }
    let mut i: usize = 0;
    while i < n
        invariant
            n == a@.len(),
            n == b@.len(),
            i <= n,
            forall|j: int| 0 <= j < i ==> a@[j] == b@[j],
        decreases n - i,
    {
        if a[i] != b[i] {
            return false;
        }
        i = i + 1;
    }
    assert(a@ =~= b@);
    true
}

/// A copy of a byte string.
pub(crate) fn copy_bytes(a: &Vec<u8>) -> (r: Vec<u8>)
    ensures
        r@ == a@,
{
    let mut r: Vec<u8> = Vec::new();
    let n: usize = a.len();
    let mut i: usize = 0;
    while i < n
        invariant
            n == a@.len(),
            i <= n,
            r@ == a@.take(i as int),
        decreases n - i,
    {
        r.push(a[i]);
        i = i + 1;
        assert(r@ =~= a@.take(i as int));
    }
    assert(r@ =~= a@);
    r
}

/// Whether `x` occurs in `v`.
pub(crate) fn contains_id(v: &Vec<u64>, x: u64) -> (r: bool)
    ensures
        r == v@.contains(x),
{
    let n: usize = v.len();
    let mut i: usize = 0;
    while i < n
        invariant
            n == v@.len(),
            i <= n,
            forall|j: int| 0 <= j < i ==> v@[j] != x,
        decreases n - i,
    {
        if v[i] == x {
            return true;
        }
        i = i + 1;
    }
    false
}

} // verus!
