//! What layer surfaces, popups and commits bring about.

use vstd::prelude::*;
use crate::arrangement;
use crate::command::Command;
use crate::geometry::{Point, Rect};
use crate::handlers::compositor;
use crate::handlers::compositor::PopupCommit;
use crate::handlers::xdg_shell::popups;
use crate::handlers::xdg_shell::popups::{DeviceGrab, GrabStep, PopupFit, PopupPlace};
use crate::space::{Interactivity, LayerKind};
use crate::state::StateView;

verus! {

/// Whether the `j`th layer of the `i`th output is the first one with the surface `surface`.
pub open spec fn layer_held(s: StateView, surface: u64, i: int, j: int) -> bool {
    &&& 0 <= i < s.outputs.len()
    &&& 0 <= j < s.outputs[i].layers@.len()
    &&& s.outputs[i].layers@[j].surface == surface
    &&& forall|k: int| 0 <= k < j ==> (#[trigger] s.outputs[i].layers@[k]).surface != surface
    &&& forall|o: int, k: int|
        #![trigger s.outputs[o].layers@[k]]
        0 <= o < i && 0 <= k < s.outputs[o].layers@.len() ==> s.outputs[o].layers@[k].surface
            != surface
}

/// Whether no output has a layer with the surface `surface`.
pub open spec fn no_layer(s: StateView, surface: u64) -> bool {
    forall|o: int, k: int|
        #![trigger s.outputs[o].layers@[k]]
        0 <= o < s.outputs.len() && 0 <= k < s.outputs[o].layers@.len()
            ==> s.outputs[o].layers@[k].surface != surface
}

/// The layer at a place is the one that its surface names.
pub(crate) proof fn lemma_layer_held(s: StateView, surface: u64, i: int, j: int)
    requires
        layer_held(s, surface, i, j),
    ensures
        s.is_layer(surface),
        s.layer_output(surface) == i,
        popups::layer_index(s.outputs[i], surface) == j,
        s.layer(surface) == s.outputs[i].layers@[j],
{
    assert(s.outputs[i].layers@[j].surface == surface);
    assert(popups::holds_layer(s.outputs[i], surface));
    assert forall|o: int| 0 <= o < i implies !popups::holds_layer(
        #[trigger] s.outputs[o],
        surface,
    ) by {
        assert forall|k: int| 0 <= k < s.outputs[o].layers@.len() implies (
        #[trigger] s.outputs[o].layers@[k]).surface != surface by {}
    }
    let x = s.layer_output(surface);
    assert(x == i);
    let y = popups::layer_index(s.outputs[i], surface);
    assert(y == j);
}

pub(crate) proof fn lemma_no_layer(s: StateView, surface: u64)
    requires
        no_layer(s, surface),
    ensures
        !s.is_layer(surface),
{
    assert forall|o: int| 0 <= o < s.outputs.len() implies !popups::holds_layer(
        #[trigger] s.outputs[o],
        surface,
    ) by {
        assert forall|k: int| 0 <= k < s.outputs[o].layers@.len() implies (
        #[trigger] s.outputs[o].layers@[k]).surface != surface by {}
    }
}

/// A new layer surface is mapped on the output that was asked for, else on the first one; without
/// any, nothing happens.
pub proof fn law_new_layer_is_mapped(s: StateView, surface: u64, requested: Option<u64>)
    ensures
        requested matches Some(output) ==> s.new_layer_surface(surface, requested) == (StateView {
            commands: s.commands.push(Command::MapLayer { surface, output }),
            ..s
        }),
        requested is None && s.outputs.len() > 0 ==> s.new_layer_surface(surface, requested) == (
        StateView {
            commands: s.commands.push(Command::MapLayer { surface, output: s.outputs[0].id }),
            ..s
        }),
        requested is None && s.outputs.len() == 0 ==> s.new_layer_surface(surface, requested) == s,
{
}

/// A layer surface that goes is unmapped from its output and owed no focus; nothing else changes.
pub proof fn law_gone_layer_is_unmapped(s: StateView, surface: u64, i: int, j: int)
    ensures
        ({
            let t = s.layer_destroyed(surface);
            let owed = if s.layer_shell_on_demand_focus == Some(surface) {
                None
            } else {
                s.layer_shell_on_demand_focus
            };
            &&& layer_held(s, surface, i, j) ==> t == (StateView {
                layer_shell_on_demand_focus: owed,
                commands: s.commands.push(
                    Command::UnmapLayer { surface, output: s.outputs[i].id },
                ),
                ..s
            })
            &&& no_layer(s, surface) ==> t == (StateView { layer_shell_on_demand_focus: owed, ..s })
        }),
{
    if layer_held(s, surface, i, j) {
        lemma_layer_held(s, surface, i, j);
    }
    if no_layer(s, surface) {
        lemma_no_layer(s, surface);
    }
}

/// What placing windows anew asks for does not depend on what was asked for before.
proof fn lemma_reflow_appends(s: StateView, c: Command, ws: Seq<u64>, zone: Rect)
    ensures
        ({
            let a = s.reflow_windows(ws, zone);
            let b = s.emit(c).reflow_windows(ws, zone);
            &&& s.commands.is_prefix_of(a.commands)
            &&& b == (StateView { commands: b.commands, ..a })
            &&& b.commands == s.commands.push(c) + a.commands.skip(s.commands.len() as int)
        }),
    decreases ws.len(),
{
    if ws.len() > 0 {
        let rest = ws.drop_last();
        let w = ws.last();
        lemma_reflow_appends(s, c, rest, zone);
        let a = s.reflow_windows(rest, zone);
        let b = s.emit(c).reflow_windows(rest, zone);
        let x = a.reflow_window(w, zone);
        let y = b.reflow_window(w, zone);
        let n = s.commands.len() as int;
        assert(a.commands.is_prefix_of(x.commands));
        assert(b.commands.is_prefix_of(y.commands));
        assert(x.commands.skip(a.commands.len() as int) =~= y.commands.skip(
            b.commands.len() as int,
        ));
        assert(s.commands =~= x.commands.take(n));
        assert(x.commands.skip(n) =~= a.commands.skip(n) + x.commands.skip(
            a.commands.len() as int,
        ));
        assert(y.commands =~= b.commands + y.commands.skip(b.commands.len() as int));
        assert(y.commands =~= s.commands.push(c) + x.commands.skip(n));
    } else {
        assert(s.commands =~= s.commands.take(s.commands.len() as int));
        assert(s.commands.push(c) + s.commands.skip(s.commands.len() as int) =~= s.commands.push(
            c,
        ));
    }
}

/// A commit of a layer surface sends it its size if that was not done yet, and then remembers that it
/// is owed the focus if it lies above the windows and wants it on demand. If the layout changed, the
/// windows are placed anew; else none of them moves. A commit of another surface does nothing.
pub proof fn law_layer_commit(s: StateView, surface: u64, layout_changed: bool, i: int, j: int)
    ensures
        ({
            let t = s.layer_commit(surface, layout_changed);
            let layer = s.outputs[i].layers@[j];
            let first = !layer.initial_configure_sent;
            let upper = layer.kind == LayerKind::Top || layer.kind == LayerKind::Overlay;
            let placed = if layout_changed {
                s.reflow_toplevels()
            } else {
                s
            };
            &&& layer_held(s, surface, i, j) ==> {
                &&& s.commands.is_prefix_of(placed.commands)
                &&& t.commands == (if first {
                    s.commands.push(Command::SendLayerConfigure { surface })
                } else {
                    s.commands
                }) + placed.commands.skip(s.commands.len() as int)
                &&& t.layer_shell_on_demand_focus == if first && upper && layer.interactivity
                    == Interactivity::OnDemand {
                    Some(surface)
                } else {
                    s.layer_shell_on_demand_focus
                }
                &&& t == (StateView {
                    commands: t.commands,
                    layer_shell_on_demand_focus: t.layer_shell_on_demand_focus,
                    ..placed
                })
            }
            &&& no_layer(s, surface) ==> t == s
        }),
{
    reveal(StateView::layer_commit);
    let n = s.commands.len() as int;
    if layer_held(s, surface, i, j) {
        lemma_layer_held(s, surface, i, j);
        let c = Command::SendLayerConfigure { surface };
        assert(s.commands =~= s.commands.take(n));
        if s.outputs.len() > 0 {
            let ws = crate::space::windows_of(s.elements);
            let zone = s.outputs[0].zone;
            lemma_reflow_appends(s, c, ws, zone);
            lemma_reflow_owes_none(s, ws, zone);
        }
        let placed = if layout_changed {
            s.reflow_toplevels()
        } else {
            s
        };
        assert(s.commands + placed.commands.skip(n) =~= placed.commands);
        assert(s.commands.push(c) + s.commands.skip(n) =~= s.commands.push(c));
    }
    if no_layer(s, surface) {
        lemma_no_layer(s, surface);
    }
}

proof fn lemma_reflow_owes_none(s: StateView, ws: Seq<u64>, zone: Rect)
    ensures
        s.reflow_windows(ws, zone).layer_shell_on_demand_focus == s.layer_shell_on_demand_focus,
    decreases ws.len(),
{
    if ws.len() > 0 {
        lemma_reflow_owes_none(s, ws.drop_last(), zone);
    }
}

/// The coordinate nearest to `v`.
pub open spec fn in_range(v: int) -> int {
    if v < -0x8000_0000 {
        -0x8000_0000
    } else if v > 0x7fff_ffff {
        0x7fff_ffff
    } else {
        v
    }
}

/// Whether `seen` is `area` as seen from `offset` within something at `at`.
pub open spec fn seen_from(seen: Rect, area: Rect, offset: Point, at: Point) -> bool {
    &&& seen.size == area.size
    &&& seen.loc.x == in_range(in_range(area.loc.x - offset.x) - at.x)
    &&& seen.loc.y == in_range(in_range(area.loc.y - offset.y) - at.y)
}

/// The area that a popup of a stacked window is kept in is the first output, as seen from its parent;
/// there is none without an output that has a place, or if the root is no stacked window.
pub proof fn law_window_popups_stay_on_output(s: StateView, place: PopupPlace, root: u64, at: Point)
    requires
        s.wf(),
    ensures
        place.root is None ==> s.popup_target(place) is None,
        s.outputs.len() == 0 || s.outputs[0].geometry is None ==> s.popup_target(place) is None,
        place.root == Some(root) && !arrangement::present(s.elements, root) ==> s.popup_target(
            place,
        ) is None,
        place.root == Some(root) && arrangement::lies_at(s.elements, root, at) && s.outputs.len()
            > 0 && s.outputs[0].geometry is Some ==> {
            &&& s.popup_target(place) is Some
            &&& seen_from(
                s.popup_target(place)->0,
                s.outputs[0].geometry->0,
                place.offset,
                at,
            )
        },
{
    arrangement::lemma_lies(s.elements);
}

/// The area that a popup of a layer surface is kept in is the output that holds the layer, as seen
/// from its parent; there is none if the root is no layer surface, or it or its output has no place.
pub proof fn law_layer_popups_stay_on_output(
    s: StateView,
    place: PopupPlace,
    root: u64,
    i: int,
    j: int,
)
    ensures
        place.root is None ==> s.layer_popup_target(place) is None,
        place.root == Some(root) && no_layer(s, root) ==> s.layer_popup_target(place) is None,
        place.root == Some(root) && layer_held(s, root, i, j) ==> {
            let area = s.outputs[i].geometry;
            let layer = s.outputs[i].layers@[j].geometry;
            &&& area is None || layer is None ==> s.layer_popup_target(place) is None
            &&& area is Some && layer is Some ==> {
                &&& s.layer_popup_target(place) is Some
                &&& seen_from(
                    s.layer_popup_target(place)->0,
                    area->0,
                    place.offset,
                    layer->0.loc,
                )
            }
        },
{
    if layer_held(s, root, i, j) {
        lemma_layer_held(s, root, i, j);
    }
    if no_layer(s, root) {
        lemma_no_layer(s, root);
    }
}

/// What puts a popup where its positioner wants it in the area `target`.
pub open spec fn placing(popup: u64, target: Option<Rect>, fit: Option<PopupFit>) -> Seq<Command> {
    if target is Some && fit is Some && fit->0.target == target->0 {
        seq![Command::SetPopupGeometry { popup, geometry: fit->0.geometry }]
    } else {
        Seq::empty()
    }
}

/// A popup is put where its positioner wants it in the area it is kept in, if that is known, and then
/// managed. One without a parent waits for its layer surface.
pub proof fn law_new_popup_is_placed_and_managed(
    s: StateView,
    popup: u64,
    has_parent: bool,
    place: PopupPlace,
    fit: Option<PopupFit>,
)
    ensures
        s.new_popup(popup, has_parent, place, fit) == if has_parent {
            StateView {
                commands: s.commands + placing(popup, s.popup_target(place), fit) + seq![
                    Command::TrackPopup { popup },
                ],
                ..s
            }
        } else {
            s
        },
        s.new_layer_popup(popup, place, fit) == (StateView {
            commands: s.commands + placing(popup, s.layer_popup_target(place), fit) + seq![
                Command::TrackPopup { popup },
            ],
            ..s
        }),
{
}

/// A popup that is repositioned takes over the rules of its new positioner, is put where that wants
/// it in the area it is kept in, if that is known, and is told so.
pub proof fn law_popup_is_repositioned(
    s: StateView,
    popup: u64,
    place: PopupPlace,
    geometry: Rect,
    fit: Option<PopupFit>,
    token: u32,
)
    ensures
        s.reposition_request(popup, place, geometry, fit, token) == (StateView {
            commands: s.commands + seq![Command::AdoptPositioner { popup, geometry }] + placing(
                popup,
                s.popup_target(place),
                fit,
            ) + seq![Command::SendRepositioned { popup, token }],
            ..s
        }),
{
}

/// Whether a device is held by someone, and neither by the event that the popup names nor by the grab
/// that it replaces.
pub open spec fn held_by_other(device: Option<DeviceGrab>) -> bool {
    match device {
        Some(d) => d.grabbed && !d.has_serial && !d.has_previous,
        None => false,
    }
}

/// What comes of a popup grab: without consent nothing; a keyboard or a pointer that someone else
/// holds dismisses it; else it gets the focus and the keyboard, and then the pointer, as far as the
/// seat has them.
pub proof fn law_popup_grab(
    granted: bool,
    keyboard: Option<DeviceGrab>,
    pointer: Option<DeviceGrab>,
)
    ensures
        ({
            let steps = popups::grab_steps(granted, keyboard, pointer);
            let keys = granted && keyboard is Some && !held_by_other(keyboard);
            let goes_on = granted && !held_by_other(keyboard);
            let at = if keys {
                2int
            } else {
                0int
            };
            &&& !granted ==> steps.len() == 0
            &&& granted && held_by_other(keyboard) ==> steps.len() == 1 && steps[0]
                == GrabStep::UngrabAll
            &&& keys ==> steps.len() >= 2 && steps[0] == GrabStep::FocusPopup && steps[1]
                == GrabStep::GrabKeyboard
            &&& goes_on && pointer is None ==> steps.len() == at
            &&& goes_on && pointer is Some ==> steps.len() == at + 1
            &&& goes_on && pointer is Some && held_by_other(pointer) ==> steps[at]
                == GrabStep::UngrabAll
            &&& goes_on && pointer is Some && !held_by_other(pointer) ==> steps[at]
                == GrabStep::GrabPointer
        }),
{
}

/// The first half of a commit concerns the window at the root of the surface tree, if it is stacked
/// and the surface is no synchronized subsurface: it takes in what was committed, and is centered
/// afterwards if it has a parent.
pub proof fn law_commit_concerns_root(
    s: StateView,
    surface: u64,
    ancestors: Seq<u64>,
    is_sync_subsurface: bool,
)
    ensures
        ({
            let root = compositor::root_of(surface, ancestors);
            let concerned = !is_sync_subsurface && arrangement::present(s.elements, root);
            &&& ancestors.len() == 0 ==> root == surface
            &&& ancestors.len() > 0 ==> root == ancestors[ancestors.len() - 1]
            &&& s.begin_commit(root, is_sync_subsurface) == (StateView {
                commands: if concerned {
                    s.commands.push(Command::WindowCommitted { window: root })
                } else {
                    s.commands
                },
                ..s
            })
            &&& s.child_to_center(root, is_sync_subsurface) == if concerned
                && s.windows[root].parent is Some {
                Some(root)
            } else {
                None
            }
        }),
{
    let root = compositor::root_of(surface, ancestors);
    assert(arrangement::present(s.elements, root) <==> crate::space::stacked(s.elements, root));
}

/// The second half of a commit: a popup of the desktop shell that was not configured yet is; then the
/// surface is treated as the layer surface that it is, else as a toplevel; then the dialog that the
/// first half found is centered.
pub proof fn law_commit_runs_role(
    s: StateView,
    surface: u64,
    w: u64,
    popup: Option<PopupCommit>,
    layout_changed: bool,
    pointer: Option<Point>,
    serial: u32,
    i: int,
    j: int,
)
    ensures
        ({
            let told = StateView {
                commands: if popup is Some && popup->0.xdg && !popup->0.initial_configure_sent {
                    s.commands.push(Command::SendPopupConfigure { popup: surface })
                } else {
                    s.commands
                },
                ..s
            };
            let plain = s.commit(surface, None, popup, layout_changed, pointer, serial);
            &&& layer_held(s, surface, i, j) ==> plain == told.layer_commit(surface, layout_changed)
            &&& no_layer(s, surface) ==> plain == told.toplevel_commit(surface, pointer, serial)
            &&& s.commit(surface, Some(w), popup, layout_changed, pointer, serial)
                == plain.center_child(w)
        }),
{
    let told = s.popup_commit(surface, popup);
    assert(told.outputs == s.outputs);
    if layer_held(s, surface, i, j) {
        assert(layer_held(told, surface, i, j));
        lemma_layer_held(told, surface, i, j);
    }
    if no_layer(s, surface) {
        assert(no_layer(told, surface));
        lemma_no_layer(told, surface);
    }
}

} // verus!
