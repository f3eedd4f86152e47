//! Keyboard and pointer input: what is under the pointer, and who gets the focus with a click.

use vstd::prelude::*;
use crate::command::{AxisSource, AxisStep, Command, Hit};
use crate::geometry::Point;
use crate::handlers::xdg_shell::popups;
use crate::space::{Element, Interactivity, Layer};
use crate::state::{LockSurface, State, StateView};

verus! {

broadcast use vstd::std_specs::hash::group_hash_axioms;

/// A surface of a surface tree and its position relative to the tree's root.
#[derive(Clone, Copy, Debug, PartialEq, Eq, Structural)]
pub struct LocalHit {
    pub surface: u64,
    pub loc: Point,
}

/// A layer surface under the pointer.
#[derive(Clone, Copy, Debug, PartialEq, Eq, Structural)]
pub struct LayerProbe {
    /// The layer, by the number of its surface.
    pub layer: u64,
    /// What of it takes the input there, if anything does.
    pub hit: Option<LocalHit>,
}

/// The topmost window under the pointer.
#[derive(Clone, Copy, Debug, PartialEq, Eq, Structural)]
pub struct WindowProbe {
    pub window: u64,
    /// Where the origin of its surface is on the plane.
    pub loc: Point,
    /// What of it takes the input there, if anything does.
    pub hit: Option<LocalHit>,
}

/// What lies under one point of the plane.
#[derive(Debug, PartialEq, Eq)]
pub struct Probe {
    /// For every lock surface what of it takes the input there, if anything does.
    pub locks: Vec<Option<LocalHit>>,
    pub overlay: Option<LayerProbe>,
    pub top: Option<LayerProbe>,
    pub window: Option<WindowProbe>,
    pub bottom: Option<LayerProbe>,
    pub background: Option<LayerProbe>,
}

/// What a scroll event says of one axis.
#[derive(Clone, Copy, Debug, PartialEq, Eq, Structural)]
pub struct AxisReport {
    /// The amount scrolled, given or worked out from the wheel clicks, is not zero.
    pub scrolled: bool,
    /// The event gives the amount in wheel-click fractions.
    pub v120: bool,
    /// The event gives the amount, and it is zero.
    pub zero: bool,
}

/// An input event.
#[derive(Debug, PartialEq, Eq)]
pub enum InputEvent {
    Keyboard { key: u32, pressed: bool, time: u32 },
    /// A relative motion.
    PointerMotion,
    /// The pointer moved over what `probe` says.
    PointerMotionAbsolute { probe: Probe, time: u32 },
    /// A button was pressed or released over what `probe` says. With `grabbed` some client holds
    /// the pointer.
    PointerButton { probe: Probe, grabbed: bool, button: u32, pressed: bool, time: u32 },
    PointerAxis { horizontal: AxisReport, vertical: AxisReport, source: AxisSource, time: u32 },
    /// An event of another device.
    Other,
}

/// The surface of the first live lock surface that takes the input, with the output at `origin`.
pub open spec fn lock_hit(
    surfaces: Seq<LockSurface>,
    hits: Seq<Option<LocalHit>>,
    origin: Point,
) -> Option<Hit>
    decreases surfaces.len(),
{
    if surfaces.len() == 0 {
        None
    } else if surfaces[0].alive && hits[0] is Some {
        Some(Hit { surface: hits[0]->0.surface, loc: hits[0]->0.loc.wide_plus_spec(origin) })
    } else {
        lock_hit(surfaces.drop_first(), hits.drop_first(), origin)
    }
}

/// `first` if there is one, else `second`.
pub open spec fn either<A>(first: Option<A>, second: Option<A>) -> Option<A> {
    if first is Some {
        first
    } else {
        second
    }
}

/// The surface of a layer that takes the input.
pub open spec fn layer_target(probe: Option<LayerProbe>) -> Option<u64> {
    match probe {
        Some(LayerProbe { layer: _, hit: Some(hit) }) => Some(hit.surface),
        _ => None,
    }
}

/// The surface of a window that takes the input.
pub open spec fn window_target(probe: Option<WindowProbe>) -> Option<u64> {
    match probe {
        Some(WindowProbe { window: _, loc: _, hit: Some(hit) }) => Some(hit.surface),
        _ => None,
    }
}

impl WindowProbe {
    /// What takes the input, on the plane.
    pub open spec fn hit_spec(self) -> Option<Hit> {
        match self.hit {
            Some(hit) => Some(
                Hit { surface: hit.surface, loc: hit.loc.plus_spec(self.loc).widened_spec() },
            ),
            None => None,
        }
    }
}

impl Layer {
    pub open spec fn can_receive_keyboard_focus_spec(self) -> bool {
        self.interactivity != Interactivity::Never
    }

    /// Whether a click gives this layer keyboard focus.
    pub fn can_receive_keyboard_focus(&self) -> (r: bool)
        ensures
            r == self.can_receive_keyboard_focus_spec(),
    {
        match self.interactivity {
            Interactivity::Exclusive | Interactivity::OnDemand => true,
            Interactivity::Never => false,
        }
    }
}

impl StateView {
    /// Whether the first output holds the layer surface `surface`.
    #[verifier::opaque]
    pub open spec fn on_first_output(self, surface: u64) -> bool {
        self.outputs.len() > 0 && popups::holds_layer(self.outputs[0], surface)
    }

    /// The layer of the first output whose surface is `surface`.
    #[verifier::opaque]
    pub open spec fn first_output_layer(self, surface: u64) -> Layer
        recommends
            self.on_first_output(surface),
    {
        self.outputs[0].layers@[popups::layer_index(self.outputs[0], surface)]
    }

    /// Whether a layer under the pointer is one of the first output, and laid out.
    pub open spec fn layer_probed(self, probe: Option<LayerProbe>) -> bool {
        probe matches Some(probe) ==> {
            &&& self.on_first_output(probe.layer)
            &&& self.first_output_layer(probe.layer).geometry is Some
        }
    }

    /// Whether `probe` is about this desktop.
    pub open spec fn probed(self, probe: Probe) -> bool {
        &&& probe.locks@.len() == self.lock_surfaces.len()
        &&& self.layer_probed(probe.overlay)
        &&& self.layer_probed(probe.top)
        &&& self.layer_probed(probe.bottom)
        &&& self.layer_probed(probe.background)
        &&& probe.window matches Some(w) ==> crate::space::stacked(self.elements, w.window)
    }

    /// What of a layer takes the input, with the output at `origin`.
    pub open spec fn layer_hit(self, probe: Option<LayerProbe>, origin: Point) -> Option<Hit> {
        match probe {
            Some(LayerProbe { layer, hit: Some(hit) }) => Some(
                Hit {
                    surface: hit.surface,
                    loc: hit.loc.plus_spec(
                        self.first_output_layer(layer).geometry->0.loc,
                    ).plus_spec(origin).widened_spec(),
                },
            ),
            _ => None,
        }
    }

    /// The surface under the pointer: a lock surface while the session is locked; else that of the
    /// overlay layer, the top layer, a window, the bottom layer or the background, whichever of
    /// these takes the input first.
    pub open spec fn surface_under(self, probe: Probe) -> Option<Hit> {
        match self.output_geometry() {
            None => None,
            Some(area) => if self.is_locked {
                lock_hit(self.lock_surfaces, probe.locks@, area.loc)
            } else {
                let above = either(
                    self.layer_hit(probe.overlay, area.loc),
                    self.layer_hit(probe.top, area.loc),
                );
                let window = match probe.window {
                    Some(window) => window.hit_spec(),
                    None => None,
                };
                let below = either(
                    self.layer_hit(probe.bottom, area.loc),
                    self.layer_hit(probe.background, area.loc),
                );
                either(above, either(window, below))
            },
        }
    }

    /// Whether the pointer is over `surface`.
    pub open spec fn reaches(self, probe: Probe, surface: u64) -> bool {
        self.surface_under(probe) matches Some(hit) && hit.surface == surface
    }

    /// The layer above the windows that a click would reach.
    pub open spec fn clicked_layer(self, probe: Probe) -> Option<u64> {
        if self.output_geometry() is Some {
            match either(probe.overlay, probe.top) {
                Some(probe) => Some(probe.layer),
                None => None,
            }
        } else {
            None
        }
    }

    /// The windows of `es` deactivated, bottom first.
    pub open spec fn deactivated(self, es: Seq<Element>) -> StateView
        decreases es.len(),
    {
        if es.len() == 0 {
            self
        } else {
            self.deactivated(es.drop_last()).emit(
                Command::SetActivated { window: es.last().window, active: false },
            ).send_pending_configure(es.last().window)
        }
    }

    /// The windows of `es` sent what is pending for them, bottom first.
    pub open spec fn flushed(self, es: Seq<Element>) -> StateView
        decreases es.len(),
    {
        if es.len() == 0 {
            self
        } else {
            self.flushed(es.drop_last()).send_pending_configure(es.last().window)
        }
    }

    /// The keyboard focus moved by a click on what `probe` says.
    pub open spec fn clicked(self, probe: Probe, serial: u32) -> StateView {
        if self.is_locked {
            match self.surface_under(probe) {
                Some(hit) => self.set_keyboard_focus(Some(hit.surface), serial),
                None => self,
            }
        } else {
            match self.clicked_layer(probe) {
                Some(layer) => if self.first_output_layer(layer).can_receive_keyboard_focus_spec() {
                    self.deactivated(self.elements).set_keyboard_focus(Some(layer), serial)
                } else {
                    self
                },
                None => match probe.window {
                    Some(window) => {
                        let s = self.raise_window(window.window, true).set_keyboard_focus(
                            Some(window.window),
                            serial,
                        );
                        s.flushed(s.elements)
                    },
                    None => self.deactivated(self.elements).set_keyboard_focus(None, serial),
                },
            }
        }
    }

    /// What `event` does.
    pub open spec fn process_input_event(self, event: InputEvent, serial: u32) -> StateView {
        match event {
            InputEvent::Keyboard { key, pressed, time } => self.emit(
                Command::KeyboardInput { key, pressed, serial, time },
            ),
            InputEvent::PointerMotion => self,
            InputEvent::PointerMotionAbsolute { probe, time } => self.emit(
                Command::PointerMotion { under: self.surface_under(probe), serial, time },
            ).emit(Command::PointerFrame),
            InputEvent::PointerButton { probe, grabbed, button, pressed, time } => (if pressed
                && !grabbed {
                self.clicked(probe, serial)
            } else {
                self
            }).emit(Command::PointerButton { button, pressed, serial, time }).emit(
                Command::PointerFrame,
            ),
            InputEvent::PointerAxis { horizontal, vertical, source, time } => self.emit(
                Command::PointerAxis {
                    source,
                    horizontal: horizontal.step_spec(source),
                    vertical: vertical.step_spec(source),
                    time,
                },
            ).emit(Command::PointerFrame),
            InputEvent::Other => self,
        }
    }

    /// Whether `event` can happen on this desktop: it is about what is there, and the pointer moves
    /// on an output.
    pub open spec fn can_happen(self, event: InputEvent) -> bool {
        match event {
            InputEvent::PointerMotionAbsolute { probe, .. } => self.probed(probe)
                && self.output_geometry() is Some,
            InputEvent::PointerButton { probe, .. } => self.probed(probe),
            _ => true,
        }
    }
}

impl AxisReport {
    pub open spec fn step_spec(self, source: AxisSource) -> AxisStep {
        AxisStep {
            value: self.scrolled,
            v120: self.scrolled && self.v120,
            stop: source == AxisSource::Finger && self.zero,
        }
    }

    /// What the axis contributes to the scroll frame. Only fingers are told to stop scrolling.
    pub fn step(self, source: AxisSource) -> (r: AxisStep)
        ensures
            r == self.step_spec(source),
    {
        AxisStep {
            value: self.scrolled,
            v120: self.scrolled && self.v120,
            stop: source == AxisSource::Finger && self.zero,
        }
    }
}

impl State {
    /// The layer of the first output whose surface is `surface`.
    fn first_output_layer(&self, surface: u64) -> (r: Layer)
        requires
            self@.on_first_output(surface),
        ensures
            r == self@.first_output_layer(surface),
    {
        reveal(StateView::on_first_output);
        reveal(StateView::first_output_layer);
        assert(self@.is_layer(surface)) by {
            assert(popups::holds_layer(self@.outputs[0], surface));
        }
        match self.find_layer(surface) {
            Some((i, j)) => {
                assert(i == 0) by {
                    if i > 0 {
                        assert(!popups::holds_layer(self@.outputs[0], surface));
                    }
                }
                self.space.outputs[i].layers[j]
            },
            None => self.space.outputs[0].layers[0],
        }
    }

    /// What of a layer takes the input, with the output at `origin`.
    fn layer_hit(&self, probe: Option<LayerProbe>, origin: Point) -> (r: Option<Hit>)
        requires
            self@.layer_probed(probe),
        ensures
            r == self@.layer_hit(probe, origin),
    {
        let probe: LayerProbe = match probe {
            Some(probe) => probe,
            None => {
                return None;
            },
        };
        let hit: LocalHit = match probe.hit {
            Some(hit) => hit,
            None => {
                return None;
            },
        };
        match self.first_output_layer(probe.layer).geometry {
            Some(geometry) => Some(
                Hit {
                    surface: hit.surface,
                    loc: hit.loc.plus(geometry.loc).plus(origin).widened(),
                },
            ),
            None => None,
        }
    }

    /// The surface under the pointer and where it is, given what lies under each kind of surface.
    pub fn surface_under(&self, probe: &Probe) -> (r: Option<Hit>)
        requires
            self@.probed(*probe),
        ensures
            r == self@.surface_under(*probe),
    {
        let area = match self.output_geometry() {
            Some(area) => area,
            None => {
                return None;
            },
        };
        if self.is_locked {
            return self.lock_surface_under(probe, area.loc);
        }
        if let Some(hit) = self.layer_hit(probe.overlay, area.loc) {
            return Some(hit);
        }
        if let Some(hit) = self.layer_hit(probe.top, area.loc) {
            return Some(hit);
        }
        if let Some(window) = probe.window {
            if let Some(hit) = window.hit {
                return Some(
                    Hit { surface: hit.surface, loc: hit.loc.plus(window.loc).widened() },
                );
            }
        }
        if let Some(hit) = self.layer_hit(probe.bottom, area.loc) {
            return Some(hit);
        }
        self.layer_hit(probe.background, area.loc)
    }

    /// The surface of the first live lock surface that takes the input, with the output at
    /// `origin`.
    fn lock_surface_under(&self, probe: &Probe, origin: Point) -> (r: Option<Hit>)
        requires
            self@.probed(*probe),
        ensures
            r == lock_hit(self@.lock_surfaces, probe.locks@, origin),
    {
        let n: usize = self.lock_surfaces.len();
        let mut i: usize = 0;
        assert(self@.lock_surfaces.skip(0) =~= self@.lock_surfaces);
        assert(probe.locks@.skip(0) =~= probe.locks@);
        while i < n
            invariant
                n == self@.lock_surfaces.len(),
                n == probe.locks@.len(),
                i <= n,
                lock_hit(self@.lock_surfaces, probe.locks@, origin) == lock_hit(
                    self@.lock_surfaces.skip(i as int),
                    probe.locks@.skip(i as int),
                    origin,
                ),
            decreases n - i,
        {
            proof {
                let surfaces = self@.lock_surfaces.skip(i as int);
                let hits = probe.locks@.skip(i as int);
                assert(surfaces.drop_first() =~= self@.lock_surfaces.skip(i + 1));
                assert(hits.drop_first() =~= probe.locks@.skip(i + 1));
                assert(surfaces[0] == self@.lock_surfaces[i as int]);
                assert(hits[0] == probe.locks@[i as int]);
            }
            if self.lock_surfaces[i].alive {
                if let Some(hit) = probe.locks[i] {
                    return Some(Hit { surface: hit.surface, loc: hit.loc.wide_plus(origin) });
                }
            }
            i = i + 1;
        }
        None
    }

    /// Takes the activated state from every stacked window.
    fn deactivate_all(&mut self)
        requires
            old(self)@.wf(),
        ensures
            final(self)@ == old(self)@.deactivated(old(self)@.elements),
            final(self)@.wf(),
            final(self)@.windows.dom() == old(self)@.windows.dom(),
    {
        let ghost before = self@;
        let n: usize = self.space.elements.len();
        let mut i: usize = 0;
        assert(before.elements.take(0) =~= Seq::empty());
        while i < n
            invariant
                before.wf(),
                n == before.elements.len(),
                i <= n,
                self@ == before.deactivated(before.elements.take(i as int)),
                self@.wf(),
                self@.elements == before.elements,
                self@.windows.dom() == before.windows.dom(),
            decreases n - i,
        {
            let w: u64 = self.space.elements[i].window;
            proof {
                assert(before.elements.take(i + 1).drop_last() =~= before.elements.take(i as int));
                assert(before.elements.take(i + 1).last() == before.elements[i as int]);
                assert(crate::space::stacked(before.elements, w));
                assert(self@.windows.dom().contains(w));
            }
            self.emit(Command::SetActivated { window: w, active: false });
            self.send_pending_configure(w);
            i = i + 1;
        }
        assert(before.elements.take(n as int) =~= before.elements);
    }

    /// Sends every stacked window what is pending for it.
    fn flush_all(&mut self)
        requires
            old(self)@.wf(),
        ensures
            final(self)@ == old(self)@.flushed(old(self)@.elements),
            final(self)@.wf(),
            final(self)@.windows.dom() == old(self)@.windows.dom(),
    {
        let ghost before = self@;
        let n: usize = self.space.elements.len();
        let mut i: usize = 0;
        assert(before.elements.take(0) =~= Seq::empty());
        while i < n
            invariant
                before.wf(),
                n == before.elements.len(),
                i <= n,
                self@ == before.flushed(before.elements.take(i as int)),
                self@.wf(),
                self@.elements == before.elements,
                self@.windows.dom() == before.windows.dom(),
            decreases n - i,
        {
            let w: u64 = self.space.elements[i].window;
            proof {
                assert(before.elements.take(i + 1).drop_last() =~= before.elements.take(i as int));
                assert(before.elements.take(i + 1).last() == before.elements[i as int]);
                assert(crate::space::stacked(before.elements, w));
                assert(self@.windows.dom().contains(w));
            }
            self.send_pending_configure(w);
            i = i + 1;
        }
        assert(before.elements.take(n as int) =~= before.elements);
    }

    /// Moves the keyboard focus as a click asks. A layer above the windows wins the click; it gets
    /// the focus only if it wants keyboard input.
    fn click(&mut self, probe: &Probe, serial: u32)
        requires
            old(self)@.wf(),
            old(self)@.probed(*probe),
        ensures
            final(self)@ == old(self)@.clicked(*probe, serial),
            final(self)@.wf(),
            final(self)@.windows.dom() == old(self)@.windows.dom(),
    {
        if self.is_locked {
            if let Some(hit) = self.surface_under(probe) {
                self.set_keyboard_focus(Some(hit.surface), serial);
            }
            return;
        }
        let above = if probe.overlay.is_some() {
            probe.overlay
        } else {
            probe.top
        };
        if self.output_geometry().is_some() {
            if let Some(layer) = above {
                if self.first_output_layer(layer.layer).can_receive_keyboard_focus() {
                    self.deactivate_all();
                    self.set_keyboard_focus(Some(layer.layer), serial);
                }
                return;
            }
        }
        if let Some(window) = probe.window {
            self.raise_window(window.window, true);
            self.set_keyboard_focus(Some(window.window), serial);
            self.flush_all();
        } else {
            self.deactivate_all();
            self.set_keyboard_focus(None, serial);
        }
    }

    /// Whether the first output holds the layer surface `surface`.
    fn on_first_output(&self, surface: u64) -> (r: bool)
        ensures
            r == self@.on_first_output(surface),
    {
        reveal(StateView::on_first_output);
        match self.find_layer(surface) {
            Some((i, _)) => {
                proof {
                    if i > 0 {
                        assert(!popups::holds_layer(self@.outputs[0], surface));
                    }
                }
                i == 0
            },
            None => {
                proof {
                    if self@.outputs.len() > 0 {
                        assert(!popups::holds_layer(self@.outputs[0], surface));
                    }
                }
                false
            },
        }
    }

    /// Whether a layer under the pointer is one of the first output, and laid out.
    fn layer_probed(&self, probe: Option<LayerProbe>) -> (r: bool)
        ensures
            r == self@.layer_probed(probe),
    {
        match probe {
            Some(probe) => self.on_first_output(probe.layer) && self.first_output_layer(
                probe.layer,
            ).geometry.is_some(),
            None => true,
        }
    }

    /// Whether `probe` is about this desktop.
    fn probed(&self, probe: &Probe) -> (r: bool)
        requires
            self@.wf(),
        ensures
            r == self@.probed(*probe),
    {
        let window: bool = match probe.window {
            Some(window) => self.space.contains(window.window),
            None => true,
        };
        window && probe.locks.len() == self.lock_surfaces.len() && self.layer_probed(probe.overlay)
            && self.layer_probed(probe.top) && self.layer_probed(probe.bottom)
            && self.layer_probed(probe.background)
    }

    /// Whether [`State::process_input_event`] can handle `event`: it is about what is there, and
    /// the pointer moves on an output.
    pub fn can_happen(&self, event: &InputEvent) -> (r: bool)
        requires
            self@.wf(),
        ensures
            r == self@.can_happen(*event),
    {
        match event {
            InputEvent::PointerMotionAbsolute { probe, .. } => self.probed(probe)
                && self.output_geometry().is_some(),
            InputEvent::PointerButton { probe, .. } => self.probed(probe),
            _ => true,
        }
    }

    /// Handles an input event.
    pub fn process_input_event(&mut self, event: InputEvent, serial: u32)
        requires
            old(self)@.wf(),
            old(self)@.can_happen(event),
        ensures
            final(self)@ == old(self)@.process_input_event(event, serial),
            final(self)@.wf(),
            final(self)@.windows.dom() == old(self)@.windows.dom(),
    {
        match event {
            InputEvent::Keyboard { key, pressed, time } => {
                self.emit(Command::KeyboardInput { key, pressed, serial, time });
            },
            InputEvent::PointerMotion => {},
            InputEvent::PointerMotionAbsolute { probe, time } => {
                let under = self.surface_under(&probe);
                self.emit(Command::PointerMotion { under, serial, time });
                self.emit(Command::PointerFrame);
            },
            InputEvent::PointerButton { probe, grabbed, button, pressed, time } => {
                if pressed && !grabbed {
                    self.click(&probe, serial);
                }
                self.emit(Command::PointerButton { button, pressed, serial, time });
                self.emit(Command::PointerFrame);
            },
            InputEvent::PointerAxis { horizontal, vertical, source, time } => {
                self.emit(
                    Command::PointerAxis {
                        source,
                        horizontal: horizontal.step(source),
                        vertical: vertical.step(source),
                        time,
                    },
                );
                self.emit(Command::PointerFrame);
            },
            InputEvent::Other => {},
        }
    }
}

/// While the session is locked, the pointer reaches lock surfaces only, and only live ones.
pub proof fn law_locked_pointer_stays_on_lock_surfaces(s: StateView, probe: Probe)
    requires
        s.is_locked,
        s.probed(probe),
    ensures
        s.surface_under(probe) matches Some(hit) ==> exists|i: int|
            0 <= i < s.lock_surfaces.len() && (#[trigger] s.lock_surfaces[i]).alive
                && probe.locks@[i] is Some && probe.locks@[i]->0.surface == hit.surface,
{
    if let Some(area) = s.output_geometry() {
        lemma_lock_hit(s.lock_surfaces, probe.locks@, area.loc);
    }
}

proof fn lemma_lock_hit(surfaces: Seq<LockSurface>, hits: Seq<Option<LocalHit>>, origin: Point)
    requires
        surfaces.len() == hits.len(),
    ensures
        lock_hit(surfaces, hits, origin) matches Some(hit) ==> exists|i: int|
            0 <= i < surfaces.len() && (#[trigger] surfaces[i]).alive && hits[i] is Some
                && hits[i]->0.surface == hit.surface,
    decreases surfaces.len(),
{
    if surfaces.len() > 0 && !(surfaces[0].alive && hits[0] is Some) {
        let rest = surfaces.drop_first();
        let others = hits.drop_first();
        lemma_lock_hit(rest, others, origin);
        if let Some(hit) = lock_hit(rest, others, origin) {
            let i = choose|i: int|
                0 <= i < rest.len() && (#[trigger] rest[i]).alive && others[i] is Some
                    && others[i]->0.surface == hit.surface;
            assert(surfaces[i + 1] == rest[i]);
            assert(hits[i + 1] == others[i]);
        }
    }
}

/// While the session is locked, a click moves no window and takes the activation from none; it
/// gives the focus to a lock surface or leaves it where it is.
pub proof fn law_locked_click_leaves_windows_alone(s: StateView, probe: Probe, serial: u32)
    requires
        s.is_locked,
        s.probed(probe),
    ensures
        s.clicked(probe, serial).elements == s.elements,
        s.clicked(probe, serial).windows == s.windows,
        s.clicked(probe, serial) == s || exists|surface: u64|
            s.clicked(probe, serial) == #[trigger] s.set_keyboard_focus(Some(surface), serial),
{
}

/// A click on a panel that wants no keyboard input changes nothing.
pub proof fn law_bare_panel_takes_no_focus(s: StateView, probe: Probe, serial: u32)
    requires
        !s.is_locked,
        s.clicked_layer(probe) matches Some(layer) && s.first_output_layer(layer).interactivity
            == Interactivity::Never,
    ensures
        s.clicked(probe, serial) == s,
{
}

/// What takes the input is what lies uppermost among what does: overlay layer, top layer, window,
/// bottom layer, background. Surfaces that let the input through hide nothing.
pub proof fn law_upper_surfaces_come_first(s: StateView, probe: Probe)
    requires
        !s.is_locked,
        s.output_geometry() is Some,
    ensures
        layer_target(probe.overlay) matches Some(h) ==> s.reaches(probe, h),
        layer_target(probe.overlay) is None ==> (layer_target(probe.top) matches Some(h)
            ==> s.reaches(probe, h)),
        layer_target(probe.overlay) is None && layer_target(probe.top) is None ==> (window_target(
            probe.window,
        ) matches Some(h) ==> s.reaches(probe, h)),
        layer_target(probe.overlay) is None && layer_target(probe.top) is None && window_target(
            probe.window,
        ) is None ==> (layer_target(probe.bottom) matches Some(h) ==> s.reaches(probe, h)),
        layer_target(probe.overlay) is None && layer_target(probe.top) is None && window_target(
            probe.window,
        ) is None && layer_target(probe.bottom) is None ==> (layer_target(
            probe.background,
        ) matches Some(h) ==> s.reaches(probe, h)),
{
}

/// A click on a window brings it to the top and gives it the focus.
pub proof fn law_click_raises_window(s: StateView, probe: Probe, serial: u32)
    requires
        s.wf(),
        !s.is_locked,
        s.probed(probe),
        s.clicked_layer(probe) is None,
        probe.window is Some,
    ensures
        s.clicked(probe, serial).elements.last().window == probe.window->0.window,
        s.clicked(probe, serial).elements == s.raise_window(
            probe.window->0.window,
            true,
        ).elements,
        s.clicked(probe, serial).commands.contains(
            Command::SetKeyboardFocus { focus: Some(probe.window->0.window), serial },
        ),
{
    let w = probe.window->0.window;
    let raised = s.raise_window(w, true).set_keyboard_focus(Some(w), serial);
    lemma_flushed(raised, raised.elements);
    let focus = Command::SetKeyboardFocus { focus: Some(w), serial };
    let at = raised.commands.len() - 1;
    assert(raised.commands[at] == focus);
    assert(s.clicked(probe, serial).commands[at] == focus);
}

/// Sending windows what is pending moves none of them, and only adds commands.
proof fn lemma_flushed(s: StateView, es: Seq<Element>)
    ensures
        s.flushed(es).elements == s.elements,
        s.commands.is_prefix_of(s.flushed(es).commands),
    decreases es.len(),
{
    if es.len() > 0 {
        lemma_flushed(s, es.drop_last());
        let t = s.flushed(es.drop_last());
        assert(s.commands =~= s.flushed(es).commands.take(s.commands.len() as int)) by {
            assert(s.commands == t.commands.take(s.commands.len() as int));
        }
    } else {
        assert(s.commands =~= s.commands.take(s.commands.len() as int));
    }
}

/// A click beside everything takes the activation from every window and clears the focus.
pub proof fn law_click_beside_clears_focus(s: StateView, probe: Probe, serial: u32, i: int)
    requires
        !s.is_locked,
        s.clicked_layer(probe) is None,
        probe.window is None,
        0 <= i < s.elements.len(),
    ensures
        s.clicked(probe, serial).commands.last() == (Command::SetKeyboardFocus {
            focus: None,
            serial,
        }),
        s.clicked(probe, serial).commands.contains(
            Command::SetActivated { window: s.elements[i].window, active: false },
        ),
        s.clicked(probe, serial).elements == s.elements,
{
    lemma_deactivated(s, s.elements, i);
    let off = Command::SetActivated { window: s.elements[i].window, active: false };
    let d = s.deactivated(s.elements).commands;
    let k = d.index_of(off);
    assert(s.clicked(probe, serial).commands[k] == off);
}

proof fn lemma_deactivated(s: StateView, es: Seq<Element>, i: int)
    requires
        0 <= i < es.len(),
    ensures
        s.deactivated(es).elements == s.elements,
        s.deactivated(es).commands.contains(
            Command::SetActivated { window: es[i].window, active: false },
        ),
    decreases es.len(),
{
    let rest = es.drop_last();
    let off = Command::SetActivated { window: es[i].window, active: false };
    let c = s.deactivated(rest).commands;
    let d = s.deactivated(es).commands;
    lemma_deactivated_stays(s, es);
    if i < rest.len() {
        lemma_deactivated(s, rest, i);
        let k = c.index_of(off);
        assert(d[k] == off);
    } else {
        assert(d[c.len() as int] == off);
    }
}

proof fn lemma_deactivated_stays(s: StateView, es: Seq<Element>)
    ensures
        s.deactivated(es).elements == s.elements,
    decreases es.len(),
{
    if es.len() > 0 {
        lemma_deactivated_stays(s, es.drop_last());
    }
}

} // verus!
