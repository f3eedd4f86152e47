//! Popups: keeping them on the output, and their grabs.

use vstd::prelude::*;
use crate::command::Command;
use crate::geometry::{Point, Rect};
use crate::space::Output;
use crate::state::{State, StateView};

verus! {

broadcast use vstd::std_specs::hash::group_hash_axioms;

/// Where a popup hangs.
#[derive(Clone, Copy, Debug, PartialEq, Eq)]
pub struct PopupPlace {
    /// The surface at the root of its parents, if there is one left.
    pub root: Option<u64>,
    /// Its position relative to that root.
    pub offset: Point,
}

/// Where the positioner of a popup puts it, relative to its parent, if it is to stay in `target`.
#[derive(Clone, Copy, Debug, PartialEq, Eq, Structural)]
pub struct PopupFit {
    pub target: Rect,
    pub geometry: Rect,
}

/// Whether `o` holds the layer surface `surface`.
pub open spec fn holds_layer(o: Output, surface: u64) -> bool {
    exists|i: int| 0 <= i < o.layers@.len() && (#[trigger] o.layers@[i]).surface == surface
}

/// The position of the first layer of `o` whose surface is `surface`.
pub open spec fn layer_index(o: Output, surface: u64) -> int
    recommends
        holds_layer(o, surface),
{
    choose|i: int|
        {
            &&& 0 <= i < o.layers@.len()
            &&& (#[trigger] o.layers@[i]).surface == surface
            &&& forall|j: int| 0 <= j < i ==> (#[trigger] o.layers@[j]).surface != surface
        }
}

impl StateView {
    /// Whether some output holds the layer surface `surface`.
    pub open spec fn is_layer(self, surface: u64) -> bool {
        exists|i: int|
            0 <= i < self.outputs.len() && holds_layer(#[trigger] self.outputs[i], surface)
    }

    /// The position of the first output that holds the layer surface `surface`.
    pub open spec fn layer_output(self, surface: u64) -> int
        recommends
            self.is_layer(surface),
    {
        choose|i: int|
            {
                &&& 0 <= i < self.outputs.len()
                &&& holds_layer(#[trigger] self.outputs[i], surface)
                &&& forall|j: int|
                    0 <= j < i ==> !holds_layer(#[trigger] self.outputs[j], surface)
            }
    }

    /// The output area as seen from a popup at `place` whose root window is at `root_loc`.
    pub open spec fn area_seen_from(area: Rect, place: PopupPlace, root_loc: Point) -> Rect {
        Rect {
            loc: area.loc.minus_spec(place.offset).minus_spec(root_loc),
            size: area.size,
        }
    }

    /// The area that a popup of a window is kept in, relative to its parent.
    pub open spec fn popup_target(self, place: PopupPlace) -> Option<Rect> {
        match (place.root, self.output_geometry()) {
            (Some(root), Some(area)) => if crate::space::stacked(self.elements, root) {
                Some(
                    Self::area_seen_from(area, place, crate::space::loc_of(self.elements, root)),
                )
            } else {
                None
            },
            _ => None,
        }
    }

    /// The area that a popup of a layer surface is kept in, relative to its parent.
    pub open spec fn layer_popup_target(self, place: PopupPlace) -> Option<Rect> {
        match place.root {
            Some(root) => if self.is_layer(root) {
                let output = self.outputs[self.layer_output(root)];
                match (output.geometry, output.layers@[layer_index(output, root)].geometry) {
                    (Some(area), Some(layer)) => Some(Self::area_seen_from(area, place, layer.loc)),
                    _ => None,
                }
            } else {
                None
            },
            None => None,
        }
    }

    /// The popup where `fit` puts it, if it is to stay in `target` and that is what `fit` is for.
    pub open spec fn unconstrain(
        self,
        popup: u64,
        target: Option<Rect>,
        fit: Option<PopupFit>,
    ) -> StateView {
        match (target, fit) {
            (Some(target), Some(fit)) => if fit.target == target {
                self.emit(Command::SetPopupGeometry { popup, geometry: fit.geometry })
            } else {
                self
            },
            _ => self,
        }
    }

    pub open spec fn new_popup(
        self,
        popup: u64,
        has_parent: bool,
        place: PopupPlace,
        fit: Option<PopupFit>,
    ) -> StateView {
        if has_parent {
            self.unconstrain(popup, self.popup_target(place), fit).emit(
                Command::TrackPopup { popup },
            )
        } else {
            self
        }
    }

    pub open spec fn new_layer_popup(
        self,
        popup: u64,
        place: PopupPlace,
        fit: Option<PopupFit>,
    ) -> StateView {
        self.unconstrain(popup, self.layer_popup_target(place), fit).emit(
            Command::TrackPopup { popup },
        )
    }

    pub open spec fn reposition_request(
        self,
        popup: u64,
        place: PopupPlace,
        geometry: Rect,
        fit: Option<PopupFit>,
        token: u32,
    ) -> StateView {
        self.emit(Command::AdoptPositioner { popup, geometry }).unconstrain(
            popup,
            self.popup_target(place),
            fit,
        ).emit(Command::SendRepositioned { popup, token })
    }
}

impl State {
    /// The position of the first output that holds the layer surface `surface`, and of the layer
    /// in it.
    pub(crate) fn find_layer(&self, surface: u64) -> (r: Option<(usize, usize)>)
        ensures
            r is Some <==> self@.is_layer(surface),
            r matches Some((i, j)) ==> {
                &&& i == self@.layer_output(surface)
                &&& i < self@.outputs.len()
                &&& j == layer_index(self@.outputs[i as int], surface)
                &&& j < self@.outputs[i as int].layers@.len()
                &&& self@.outputs[i as int].layers@[j as int].surface == surface
            },
    {
        let n: usize = self.space.outputs.len();
        let mut i: usize = 0;
        while i < n
            invariant
                n == self@.outputs.len(),
                i <= n,
                forall|k: int| 0 <= k < i ==> !holds_layer(#[trigger] self@.outputs[k], surface),
            decreases n - i,
        {
            match layer_position(&self.space.outputs[i], surface) {
                Some(j) => {
                    proof {
                        assert(holds_layer(self@.outputs[i as int], surface));
                        let k = self@.layer_output(surface);
                        assert(k == i);
                    }
                    return Some((i, j));
                },
                None => {},
            }
            i = i + 1;
        }
        None
    }

    /// The output area in which a popup of a window is kept, relative to its parent. There is none
    /// when the root is no stacked window or there is no output to keep it on.
    pub fn unconstrain_popup(&self, place: PopupPlace) -> (r: Option<Rect>)
        requires
            self@.wf(),
        ensures
            r == self@.popup_target(place),
    {
        let root: u64 = match place.root {
            Some(root) => root,
            None => {
                return None;
            },
        };
        let root_loc: Point = match self.space.position(root) {
            Some(i) => self.space.elements[i].loc,
            None => {
                return None;
            },
        };
        match self.output_geometry() {
            Some(area) => Some(
                Rect { loc: area.loc.minus(place.offset).minus(root_loc), size: area.size },
            ),
            None => None,
        }
    }

    /// The output area in which a popup of a layer surface is kept, relative to its parent. There
    /// is none when the root is no layer surface, or it or its output has no place yet.
    pub fn unconstrain_layer_popup(&self, place: PopupPlace) -> (r: Option<Rect>)
        ensures
            r == self@.layer_popup_target(place),
    {
        let root: u64 = match place.root {
            Some(root) => root,
            None => {
                return None;
            },
        };
        match self.find_layer(root) {
            Some((i, j)) => {
                let output = &self.space.outputs[i];
                match (output.geometry, output.layers[j].geometry) {
                    (Some(area), Some(layer)) => Some(
                        Rect {
                            loc: area.loc.minus(place.offset).minus(layer.loc),
                            size: area.size,
                        },
                    ),
                    _ => None,
                }
            },
            None => None,
        }
    }

    /// Puts the popup where `fit` says, if it is to stay in `target` and that is what `fit` is for.
    fn unconstrain(&mut self, popup: u64, target: Option<Rect>, fit: Option<PopupFit>)
        requires
            old(self)@.wf(),
        ensures
            final(self)@ == old(self)@.unconstrain(popup, target, fit),
            final(self)@.wf(),
    {
        if let (Some(target), Some(fit)) = (target, fit) {
            if fit.target == target {
                self.emit(Command::SetPopupGeometry { popup, geometry: fit.geometry });
            }
        }
    }

    /// A client created a popup. `fit` is where its positioner puts it to stay in the area that
    /// [`State::unconstrain_popup`] gives. Popups of layer surfaces get their parent later, and are
    /// handled by [`State::new_layer_popup`].
    pub fn new_popup(
        &mut self,
        popup: u64,
        has_parent: bool,
        place: PopupPlace,
        fit: Option<PopupFit>,
    )
        requires
            old(self)@.wf(),
        ensures
            final(self)@ == old(self)@.new_popup(popup, has_parent, place, fit),
            final(self)@.wf(),
    {
        if !has_parent {
            return;
        }
        let target = self.unconstrain_popup(place);
        self.unconstrain(popup, target, fit);
        self.emit(Command::TrackPopup { popup });
    }

    /// A layer surface got a popup. `fit` is where its positioner puts it to stay in the area that
    /// [`State::unconstrain_layer_popup`] gives.
    pub fn new_layer_popup(&mut self, popup: u64, place: PopupPlace, fit: Option<PopupFit>)
        requires
            old(self)@.wf(),
        ensures
            final(self)@ == old(self)@.new_layer_popup(popup, place, fit),
            final(self)@.wf(),
    {
        let target = self.unconstrain_layer_popup(place);
        self.unconstrain(popup, target, fit);
        self.emit(Command::TrackPopup { popup });
    }

    /// A client asks to move a popup by a new positioner, which gives it `geometry`. `fit` is where
    /// the positioner puts it to stay in the area that [`State::unconstrain_popup`] gives.
    pub fn reposition_request(
        &mut self,
        popup: u64,
        place: PopupPlace,
        geometry: Rect,
        fit: Option<PopupFit>,
        token: u32,
    )
        requires
            old(self)@.wf(),
        ensures
            final(self)@ == old(self)@.reposition_request(popup, place, geometry, fit, token),
            final(self)@.wf(),
    {
        self.emit(Command::AdoptPositioner { popup, geometry });
        let target = self.unconstrain_popup(place);
        self.unconstrain(popup, target, fit);
        self.emit(Command::SendRepositioned { popup, token });
    }
}

/// The position of the first layer of `output` whose surface is `surface`.
fn layer_position(output: &Output, surface: u64) -> (r: Option<usize>)
    ensures
        r is Some <==> holds_layer(*output, surface),
        r matches Some(j) ==> j == layer_index(*output, surface) && j < output.layers@.len()
            && output.layers@[j as int].surface == surface,
{
    let n: usize = output.layers.len();
    let mut j: usize = 0;
    while j < n
        invariant
            n == output.layers@.len(),
            j <= n,
            forall|k: int| 0 <= k < j ==> (#[trigger] output.layers@[k]).surface != surface,
        decreases n - j,
    {
        if output.layers[j].surface == surface {
            proof {
                let k = layer_index(*output, surface);
                assert(output.layers@[j as int].surface == surface);
                assert(k == j);
            }
            return Some(j);
        }
        j = j + 1;
    }
    None
}

/// What a seat device is doing when a popup asks for its grab.
#[derive(Clone, Copy, Debug, PartialEq, Eq, Structural)]
pub struct DeviceGrab {
    /// Someone holds the device.
    pub grabbed: bool,
    /// The grab was started by the event the popup names.
    pub has_serial: bool,
    /// The popup grab replaces no other, or the grab was started by the one it replaces.
    pub has_previous: bool,
}

impl DeviceGrab {
    /// Whether the device belongs to someone else.
    pub open spec fn foreign_spec(self) -> bool {
        self.grabbed && !(self.has_serial || self.has_previous)
    }

    /// Whether the device belongs to someone else.
    pub fn is_foreign(&self) -> (r: bool)
        ensures
            r == self.foreign_spec(),
    {
        self.grabbed && !(self.has_serial || self.has_previous)
    }
}

/// A step of granting a popup grab.
#[derive(Clone, Copy, Debug, PartialEq, Eq, Structural)]
pub enum GrabStep {
    /// Give the popup keyboard focus.
    FocusPopup,
    /// Let the popup hold the keyboard.
    GrabKeyboard,
    /// Let the popup hold the pointer.
    GrabPointer,
    /// Dismiss the popup grab with all the popups it holds.
    UngrabAll,
}

/// Whether a device that exists belongs to someone else.
pub open spec fn foreign_device(device: Option<DeviceGrab>) -> bool {
    device matches Some(grab) && grab.foreign_spec()
}

/// The steps of granting a popup grab: the keyboard first, then the pointer, and dismissal as soon
/// as a device belongs to someone else.
pub open spec fn grab_steps(
    granted: bool,
    keyboard: Option<DeviceGrab>,
    pointer: Option<DeviceGrab>,
) -> Seq<GrabStep> {
    if !granted {
        Seq::empty()
    } else if foreign_device(keyboard) {
        seq![GrabStep::UngrabAll]
    } else {
        let first = if keyboard is Some {
            seq![GrabStep::FocusPopup, GrabStep::GrabKeyboard]
        } else {
            Seq::empty()
        };
        if foreign_device(pointer) {
            first.push(GrabStep::UngrabAll)
        } else if pointer is Some {
            first.push(GrabStep::GrabPointer)
        } else {
            first
        }
    }
}

/// Decides what happens when a popup asks to hold the seat. `granted` says whether the popup has a
/// root and its grab was accepted; a device is absent when the seat lacks it.
pub fn grab(
    granted: bool,
    keyboard: Option<DeviceGrab>,
    pointer: Option<DeviceGrab>,
) -> (steps: Vec<GrabStep>)
    ensures
        steps@ == grab_steps(granted, keyboard, pointer),
{
    let mut steps: Vec<GrabStep> = Vec::new();
    if !granted {
        return steps;
    }
    if let Some(device) = keyboard {
        if device.is_foreign() {
            steps.push(GrabStep::UngrabAll);
            return steps;
        }
        steps.push(GrabStep::FocusPopup);
        steps.push(GrabStep::GrabKeyboard);
    }
    if let Some(device) = pointer {
        if device.is_foreign() {
            steps.push(GrabStep::UngrabAll);
            return steps;
        }
        steps.push(GrabStep::GrabPointer);
    }
    steps
}

/// Seen from the plane, the area that a popup is kept in is the output, as far as no coordinate is
/// out of range.
pub proof fn law_popups_stay_on_output(s: StateView, place: PopupPlace, target: Rect)
    requires
        s.popup_target(place) == Some(target),
        crate::geometry::in_i32(s.output_geometry()->0.loc.x - place.offset.x),
        crate::geometry::in_i32(s.output_geometry()->0.loc.y - place.offset.y),
        crate::geometry::in_i32(
            s.output_geometry()->0.loc.x - place.offset.x - crate::space::loc_of(
                s.elements,
                place.root->0,
            ).x,
        ),
        crate::geometry::in_i32(
            s.output_geometry()->0.loc.y - place.offset.y - crate::space::loc_of(
                s.elements,
                place.root->0,
            ).y,
        ),
    ensures
        target.size == s.output_geometry()->0.size,
        target.loc.x + crate::space::loc_of(s.elements, place.root->0).x + place.offset.x
            == s.output_geometry()->0.loc.x,
        target.loc.y + crate::space::loc_of(s.elements, place.root->0).y + place.offset.y
            == s.output_geometry()->0.loc.y,
{
}

/// The last geometry that a popup is given when it moves is the one that its positioner gives for
/// the output area, or the one that it gives without regard to the output where there is no area to
/// keep the popup in.
pub proof fn law_repositioned_popup_fits(
    s: StateView,
    popup: u64,
    place: PopupPlace,
    geometry: Rect,
    fit: PopupFit,
    token: u32,
)
    requires
        s.popup_target(place) matches Some(target) ==> fit.target == target,
    ensures
        s.reposition_request(popup, place, geometry, Some(fit), token).commands == s.commands
            + if s.popup_target(place) is Some {
            seq![
                Command::AdoptPositioner { popup, geometry },
                Command::SetPopupGeometry { popup, geometry: fit.geometry },
                Command::SendRepositioned { popup, token },
            ]
        } else {
            seq![
                Command::AdoptPositioner { popup, geometry },
                Command::SendRepositioned { popup, token },
            ]
        },
{
}

/// A popup grab can be granted device by device: the steps for the pointer follow those for the
/// keyboard, unless these dismissed the grab.
pub proof fn law_grab_goes_device_by_device(
    granted: bool,
    keyboard: Option<DeviceGrab>,
    pointer: Option<DeviceGrab>,
)
    ensures
        grab_steps(granted, keyboard, pointer) == grab_steps(granted, keyboard, None)
            + if grab_steps(granted, keyboard, None).contains(GrabStep::UngrabAll) {
            Seq::empty()
        } else {
            grab_steps(granted, None, pointer)
        },
{
    let first = grab_steps(granted, keyboard, None);
    if granted && foreign_device(keyboard) {
        assert(first[0] == GrabStep::UngrabAll);
    } else {
        assert(!first.contains(GrabStep::UngrabAll));
    }
}

/// A popup grab that is dismissed ends with that and never got the pointer; one that is not accepted
/// has no steps at all.
pub proof fn law_dismissed_grab_ends_there(
    granted: bool,
    keyboard: Option<DeviceGrab>,
    pointer: Option<DeviceGrab>,
    i: int,
)
    requires
        0 <= i < grab_steps(granted, keyboard, pointer).len(),
        grab_steps(granted, keyboard, pointer)[i] == GrabStep::UngrabAll,
    ensures
        granted,
        foreign_device(keyboard) || foreign_device(pointer),
        i == grab_steps(granted, keyboard, pointer).len() - 1,
        !grab_steps(granted, keyboard, pointer).contains(GrabStep::GrabPointer),
{
}

} // verus!
