//! What the user's input brings about.

use vstd::prelude::*;
use crate::arrangement;
use crate::arrangement::{lemma_lies, lemma_others};
use crate::command::{AxisSource, AxisStep, Command, Hit};
use crate::geometry::{Point, WidePoint};
use crate::handlers::surface_laws;
use crate::handlers::xdg_shell::laws::lemma_raised_on_top;
use crate::handlers::xdg_shell::popups;
use crate::input;
use crate::input::{AxisReport, InputEvent, LayerProbe, LocalHit, Probe, WindowProbe};
use crate::space;
use crate::space::{lemma_moves, Element, Interactivity};
use crate::state::{LockSurface, StateView};

verus! {

/// Whether the layer `surface` is the one at position `j` of the first output.
pub open spec fn layer_at(s: StateView, surface: u64, j: int) -> bool {
    &&& s.outputs.len() > 0
    &&& 0 <= j < s.outputs[0].layers@.len()
    &&& s.outputs[0].layers@[j].surface == surface
    &&& forall|k: int| 0 <= k < j ==> (#[trigger] s.outputs[0].layers@[k]).surface != surface
}

/// The uppermost layer above the windows that lies under the pointer.
pub open spec fn upper_layer(probe: Probe) -> Option<LayerProbe> {
    match probe.overlay {
        Some(layer) => Some(layer),
        None => probe.top,
    }
}

/// Whether there is an output to point at.
pub open spec fn has_output(s: StateView) -> bool {
    s.outputs.len() > 0 && s.outputs[0].geometry is Some
}

/// The layer at a position is the one that its surface names.
pub(crate) proof fn lemma_layer_at(s: StateView, surface: u64, j: int)
    requires
        layer_at(s, surface, j),
    ensures
        s.on_first_output(surface),
        s.first_output_layer(surface) == s.outputs[0].layers@[j],
{
    reveal(StateView::on_first_output);
    reveal(StateView::first_output_layer);
    let o = s.outputs[0];
    let k = popups::layer_index(o, surface);
    assert(o.layers@[j].surface == surface);
    assert(o.layers@[k].surface == surface);
    assert(k == j);
}

/// What deactivating windows asks for, in order.
proof fn lemma_deactivated_commands(s: StateView, es: Seq<Element>)
    ensures
        ({
            let t = s.deactivated(es);
            let n = s.commands.len() as int;
            &&& t.commands.len() == n + 2 * es.len()
            &&& s.commands.is_prefix_of(t.commands)
            &&& forall|i: int|
                0 <= i < es.len() ==> t.commands[n + 2 * i] == (Command::SetActivated {
                    window: (#[trigger] es[i]).window,
                    active: false,
                }) && t.commands[n + 2 * i + 1] == (Command::SendPendingConfigure {
                    window: es[i].window,
                })
            &&& t.elements == s.elements
            &&& t.toplevels == s.toplevels
            &&& t.active_window == s.active_window
        }),
    decreases es.len(),
{
    if es.len() > 0 {
        let rest = es.drop_last();
        lemma_deactivated_commands(s, rest);
        let a = s.deactivated(rest);
        let t = s.deactivated(es);
        let n = s.commands.len() as int;
        assert(forall|i: int| 0 <= i < rest.len() ==> #[trigger] rest[i] == es[i]);
        assert(forall|k: int| 0 <= k < a.commands.len() ==> #[trigger] t.commands[k]
            == a.commands[k]);
        assert(s.commands =~= t.commands.take(n)) by {
            assert(s.commands == a.commands.take(n));
        }
        assert forall|i: int| 0 <= i < es.len() implies t.commands[n + 2 * i] == (
        Command::SetActivated { window: (#[trigger] es[i]).window, active: false })
            && t.commands[n + 2 * i + 1] == (Command::SendPendingConfigure {
            window: es[i].window,
        }) by {
            if i < rest.len() {
                assert(rest[i] == es[i]);
            }
        }
    } else {
        assert(s.commands =~= s.commands.take(s.commands.len() as int));
    }
}

/// What telling windows what is pending asks for, in order.
proof fn lemma_flushed_commands(s: StateView, es: Seq<Element>)
    ensures
        ({
            let t = s.flushed(es);
            let n = s.commands.len() as int;
            &&& t.commands.len() == n + es.len()
            &&& s.commands.is_prefix_of(t.commands)
            &&& forall|i: int|
                0 <= i < es.len() ==> t.commands[n + i] == (Command::SendPendingConfigure {
                    window: (#[trigger] es[i]).window,
                })
            &&& t.elements == s.elements
            &&& t.toplevels == s.toplevels
            &&& t.active_window == s.active_window
        }),
    decreases es.len(),
{
    if es.len() > 0 {
        let rest = es.drop_last();
        lemma_flushed_commands(s, rest);
        let a = s.flushed(rest);
        let t = s.flushed(es);
        let n = s.commands.len() as int;
        assert(forall|k: int| 0 <= k < a.commands.len() ==> #[trigger] t.commands[k]
            == a.commands[k]);
        assert(s.commands =~= t.commands.take(n)) by {
            assert(s.commands == a.commands.take(n));
        }
        assert forall|i: int| 0 <= i < es.len() implies t.commands[n + i] == (
        Command::SendPendingConfigure { window: (#[trigger] es[i]).window }) by {
            if i < rest.len() {
                assert(rest[i] == es[i]);
            }
        }
    } else {
        assert(s.commands =~= s.commands.take(s.commands.len() as int));
    }
}

/// Whether `t` has just the commands of `s` and then those by which every window is deactivated, the
/// keyboard focus goes to `focus`, and the client under the pointer hears of the button.
pub open spec fn deactivates_and_focuses(
    s: StateView,
    t: StateView,
    focus: Option<u64>,
    button: u32,
    serial: u32,
    time: u32,
) -> bool {
    let n = s.commands.len() as int;
    let m = n + 2 * s.elements.len();
    &&& s.commands.is_prefix_of(t.commands)
    &&& t.commands.len() == m + 3
    &&& forall|i: int|
        0 <= i < s.elements.len() ==> t.commands[n + 2 * i] == (Command::SetActivated {
            window: (#[trigger] s.elements[i]).window,
            active: false,
        }) && t.commands[n + 2 * i + 1] == (Command::SendPendingConfigure {
            window: s.elements[i].window,
        })
    &&& t.commands[m] == (Command::SetKeyboardFocus { focus, serial })
    &&& t.commands[m + 1] == (Command::PointerButton { button, pressed: true, serial, time })
    &&& t.commands[m + 2] == Command::PointerFrame
}

/// A press on a layer above the windows, while the session is not locked, takes the activation from
/// every window and gives the layer the focus if it wants keyboard input exclusively or on demand; a
/// layer that wants none leaves the focus where it is. No window moves.
pub proof fn law_press_on_upper_layer(
    s: StateView,
    probe: Probe,
    layer: u64,
    j: int,
    button: u32,
    serial: u32,
    time: u32,
)
    requires
        !s.is_locked,
        has_output(s),
        upper_layer(probe) matches Some(l) && l.layer == layer,
        layer_at(s, layer, j),
    ensures
        ({
            let event = InputEvent::PointerButton {
                probe,
                grabbed: false,
                button,
                pressed: true,
                time,
            };
            let t = s.process_input_event(event, serial);
            let wants = s.outputs[0].layers@[j].interactivity == Interactivity::Exclusive
                || s.outputs[0].layers@[j].interactivity == Interactivity::OnDemand;
            &&& t.elements == s.elements
            &&& t.toplevels == s.toplevels
            &&& t.active_window == s.active_window
            &&& wants ==> deactivates_and_focuses(s, t, Some(layer), button, serial, time)
            &&& !wants ==> t.commands == s.commands + seq![
                Command::PointerButton { button, pressed: true, serial, time },
                Command::PointerFrame,
            ]
        }),
{
    lemma_layer_at(s, layer, j);
    lemma_deactivated_commands(s, s.elements);
    let event = InputEvent::PointerButton { probe, grabbed: false, button, pressed: true, time };
    let t = s.process_input_event(event, serial);
    let d = s.deactivated(s.elements);
    assert(s.clicked_layer(probe) == Some(layer));
    if s.outputs[0].layers@[j].interactivity != Interactivity::Never {
        assert(forall|k: int| 0 <= k < d.commands.len() ==> #[trigger] t.commands[k]
            == d.commands[k]);
        assert(s.commands =~= t.commands.take(s.commands.len() as int)) by {
            assert(s.commands == d.commands.take(s.commands.len() as int));
        }
    }
}

/// A press beside every window and every layer above them, while the session is not locked, takes the
/// activation from every window and clears the focus.
pub proof fn law_press_beside_everything(
    s: StateView,
    probe: Probe,
    button: u32,
    serial: u32,
    time: u32,
)
    requires
        !s.is_locked,
        !has_output(s) || upper_layer(probe) is None,
        probe.window is None,
    ensures
        ({
            let event = InputEvent::PointerButton {
                probe,
                grabbed: false,
                button,
                pressed: true,
                time,
            };
            let t = s.process_input_event(event, serial);
            &&& t.elements == s.elements
            &&& t.toplevels == s.toplevels
            &&& deactivates_and_focuses(s, t, None, button, serial, time)
        }),
{
    lemma_deactivated_commands(s, s.elements);
    let event = InputEvent::PointerButton { probe, grabbed: false, button, pressed: true, time };
    let t = s.process_input_event(event, serial);
    let d = s.deactivated(s.elements);
    assert(s.clicked_layer(probe) is None);
    assert(forall|k: int| 0 <= k < d.commands.len() ==> #[trigger] t.commands[k] == d.commands[k]);
    assert(s.commands =~= t.commands.take(s.commands.len() as int)) by {
        assert(s.commands == d.commands.take(s.commands.len() as int));
    }
}

/// A press on a window with no layer above it, while the session is not locked, puts the window on
/// top and gives it the focus; the others keep their places and their order, and all hear whether
/// they are active.
pub proof fn law_press_on_window(
    s: StateView,
    probe: Probe,
    w: u64,
    button: u32,
    serial: u32,
    time: u32,
)
    requires
        s.wf(),
        !s.is_locked,
        !has_output(s) || upper_layer(probe) is None,
        probe.window matches Some(under) && under.window == w,
        arrangement::present(s.elements, w),
    ensures
        ({
            let event = InputEvent::PointerButton {
                probe,
                grabbed: false,
                button,
                pressed: true,
                time,
            };
            let t = s.process_input_event(event, serial);
            let n = s.commands.len() as int;
            let m = n + 2 + s.elements.len();
            &&& t.elements.len() == s.elements.len()
            &&& t.elements.last().window == w
            &&& arrangement::others(t.elements, w) == arrangement::others(s.elements, w)
            &&& forall|at: Point|
                #[trigger] arrangement::lies_at(s.elements, w, at) ==> arrangement::lies_at(
                    t.elements,
                    w,
                    at,
                )
            &&& t.toplevels == s.toplevels
            &&& s.commands.is_prefix_of(t.commands)
            &&& t.commands.len() == m + 2
            &&& t.commands[n] == (Command::RaiseWindow { window: w, activate: true })
            &&& t.commands[n + 1] == (Command::SetKeyboardFocus { focus: Some(w), serial })
            &&& forall|i: int|
                0 <= i < t.elements.len() ==> t.commands[n + 2 + i] == (
                Command::SendPendingConfigure { window: (#[trigger] t.elements[i]).window })
            &&& t.commands[m] == (Command::PointerButton { button, pressed: true, serial, time })
            &&& t.commands[m + 1] == Command::PointerFrame
        }),
{
    let event = InputEvent::PointerButton { probe, grabbed: false, button, pressed: true, time };
    let t = s.process_input_event(event, serial);
    assert(s.clicked_layer(probe) is None);
    lemma_lies(s.elements);
    let r = s.raise_window(w, true).set_keyboard_focus(Some(w), serial);
    lemma_raised_on_top(s.elements, w);
    lemma_moves(s.elements, w, space::loc_of(s.elements, w));
    lemma_flushed_commands(r, r.elements);
    lemma_lies(r.elements);
    lemma_others(s.elements, w);
    lemma_others(r.elements, w);
    crate::space::lemma_level(r.elements, r.elements.len() - 1);
    let f = r.flushed(r.elements);
    assert(t.elements == r.elements);
    assert(forall|k: int| 0 <= k < f.commands.len() ==> #[trigger] t.commands[k] == f.commands[k]);
    assert(forall|k: int| 0 <= k < r.commands.len() ==> #[trigger] f.commands[k] == r.commands[k]);
    assert(s.commands =~= t.commands.take(s.commands.len() as int));
}

/// Releasing a button, and pressing one while a client holds the pointer, is only passed on.
pub proof fn law_other_buttons_are_passed_on(
    s: StateView,
    probe: Probe,
    grabbed: bool,
    button: u32,
    pressed: bool,
    serial: u32,
    time: u32,
)
    requires
        !pressed || grabbed,
    ensures
        s.process_input_event(
            InputEvent::PointerButton { probe, grabbed, button, pressed, time },
            serial,
        ) == (StateView {
            commands: s.commands + seq![
                Command::PointerButton { button, pressed, serial, time },
                Command::PointerFrame,
            ],
            ..s
        }),
{
}

/// A press while the session is locked gives the focus to the first live lock surface that takes the
/// input, if there is one, and moves no window and takes the activation from none.
pub proof fn law_press_while_locked(
    s: StateView,
    probe: Probe,
    button: u32,
    serial: u32,
    time: u32,
)
    requires
        s.is_locked,
        probe.locks@.len() == s.lock_surfaces.len(),
    ensures
        ({
            let event = InputEvent::PointerButton {
                probe,
                grabbed: false,
                button,
                pressed: true,
                time,
            };
            let t = s.process_input_event(event, serial);
            let pass = seq![
                Command::PointerButton { button, pressed: true, serial, time },
                Command::PointerFrame,
            ];
            &&& forall|i: int|
                has_output(s) && #[trigger] first_lock(s, probe, i) ==> t == (StateView {
                    commands: s.commands + seq![
                        Command::SetKeyboardFocus {
                            focus: Some(probe.locks@[i]->0.surface),
                            serial,
                        },
                    ] + pass,
                    ..s
                })
            &&& !has_output(s) || (forall|i: int|
                0 <= i < s.lock_surfaces.len() ==> !#[trigger] takes_input(s, probe, i)) ==> t == (
            StateView { commands: s.commands + pass, ..s })
        }),
{
    let event = InputEvent::PointerButton { probe, grabbed: false, button, pressed: true, time };
    let t = s.process_input_event(event, serial);
    let pass = seq![
        Command::PointerButton { button, pressed: true, serial, time },
        Command::PointerFrame,
    ];
    assert forall|i: int| has_output(s) && #[trigger] first_lock(s, probe, i) implies t == (
    StateView {
        commands: s.commands + seq![
            Command::SetKeyboardFocus { focus: Some(probe.locks@[i]->0.surface), serial },
        ] + pass,
        ..s
    }) by {
        law_pointer_on_lock_surfaces(s, probe);
        assert(t.commands =~= s.commands + seq![
            Command::SetKeyboardFocus { focus: Some(probe.locks@[i]->0.surface), serial },
        ] + pass);
    }
    if !has_output(s) || (forall|i: int|
        0 <= i < s.lock_surfaces.len() ==> !#[trigger] takes_input(s, probe, i)) {
        law_pointer_on_lock_surfaces(s, probe);
        assert(t.commands =~= s.commands + pass);
    }
}

/// Whether the lock surface at position `i` is alive and takes the input.
pub open spec fn takes_input(s: StateView, probe: Probe, i: int) -> bool {
    s.lock_surfaces[i].alive && probe.locks@[i] is Some
}

/// Whether the lock surface at position `i` is the first that is alive and takes the input.
pub open spec fn first_lock(s: StateView, probe: Probe, i: int) -> bool {
    &&& 0 <= i < s.lock_surfaces.len()
    &&& takes_input(s, probe, i)
    &&& forall|k: int| 0 <= k < i ==> !#[trigger] takes_input(s, probe, k)
}

/// While the session is locked, the pointer is over the first live lock surface that takes the input,
/// at its place on the output, and else over nothing.
pub proof fn law_pointer_on_lock_surfaces(s: StateView, probe: Probe)
    requires
        s.is_locked,
        probe.locks@.len() == s.lock_surfaces.len(),
    ensures
        forall|i: int|
            has_output(s) && #[trigger] first_lock(s, probe, i) ==> {
                let hit = probe.locks@[i]->0;
                let area = s.outputs[0].geometry->0;
                s.surface_under(probe) matches Some(h) && h.surface == hit.surface && h.loc.x
                    == hit.loc.x + area.loc.x && h.loc.y == hit.loc.y + area.loc.y
            },
        !has_output(s) || (forall|i: int|
            0 <= i < s.lock_surfaces.len() ==> !#[trigger] takes_input(s, probe, i))
            ==> s.surface_under(probe) is None,
{
    if has_output(s) {
        let area = s.outputs[0].geometry->0;
        assert forall|i: int| #[trigger] first_lock(s, probe, i) implies ({
            let hit = probe.locks@[i]->0;
            s.surface_under(probe) matches Some(h) && h.surface == hit.surface && h.loc.x
                == hit.loc.x + area.loc.x && h.loc.y == hit.loc.y + area.loc.y
        }) by {
            assert forall|k: int| 0 <= k < i implies !((#[trigger] s.lock_surfaces[k]).alive
                && probe.locks@[k] is Some) by {
                assert(!takes_input(s, probe, k));
            }
            lemma_lock_hit_first(s.lock_surfaces, probe.locks@, area.loc, i);
        }
        if forall|i: int|
            0 <= i < s.lock_surfaces.len() ==> !#[trigger] takes_input(s, probe, i) {
            assert forall|k: int| 0 <= k < s.lock_surfaces.len() implies !((
            #[trigger] s.lock_surfaces[k]).alive && probe.locks@[k] is Some) by {
                assert(!takes_input(s, probe, k));
            }
            lemma_lock_hit_none(s.lock_surfaces, probe.locks@, area.loc);
        }
    }
}

proof fn lemma_lock_hit_first(
    surfaces: Seq<LockSurface>,
    hits: Seq<Option<LocalHit>>,
    origin: Point,
    i: int,
)
    requires
        surfaces.len() == hits.len(),
        0 <= i < surfaces.len(),
        surfaces[i].alive,
        hits[i] is Some,
        forall|k: int| 0 <= k < i ==> !((#[trigger] surfaces[k]).alive && hits[k] is Some),
    ensures
        input::lock_hit(surfaces, hits, origin) == Some(
            Hit {
                surface: hits[i]->0.surface,
                loc: WidePoint {
                    x: (hits[i]->0.loc.x + origin.x) as i64,
                    y: (hits[i]->0.loc.y + origin.y) as i64,
                },
            },
        ),
    decreases surfaces.len(),
{
    if i > 0 {
        let rest = surfaces.drop_first();
        let others = hits.drop_first();
        assert(!(surfaces[0].alive && hits[0] is Some));
        assert forall|k: int| 0 <= k < i - 1 implies !((#[trigger] rest[k]).alive
            && others[k] is Some) by {
            assert(rest[k] == surfaces[k + 1]);
        }
        lemma_lock_hit_first(rest, others, origin, i - 1);
    }
}

proof fn lemma_lock_hit_none(
    surfaces: Seq<LockSurface>,
    hits: Seq<Option<LocalHit>>,
    origin: Point,
)
    requires
        surfaces.len() == hits.len(),
        forall|k: int|
            0 <= k < surfaces.len() ==> !((#[trigger] surfaces[k]).alive && hits[k] is Some),
    ensures
        input::lock_hit(surfaces, hits, origin) is None,
    decreases surfaces.len(),
{
    if surfaces.len() > 0 {
        let rest = surfaces.drop_first();
        let others = hits.drop_first();
        assert(!(surfaces[0].alive && hits[0] is Some));
        assert forall|k: int| 0 <= k < rest.len() implies !((#[trigger] rest[k]).alive
            && others[k] is Some) by {
            assert(rest[k] == surfaces[k + 1]);
        }
        lemma_lock_hit_none(rest, others, origin);
    }
}

/// What of a layer takes the input, if anything does.
pub open spec fn layer_taker(probe: Option<LayerProbe>) -> Option<LocalHit> {
    match probe {
        Some(l) => l.hit,
        None => None,
    }
}

/// What of a window takes the input, if anything does.
pub open spec fn window_taker(probe: Option<WindowProbe>) -> Option<LocalHit> {
    match probe {
        Some(w) => w.hit,
        None => None,
    }
}

/// Whether `v` is a coordinate.
pub open spec fn coordinate(v: int) -> bool {
    i32::MIN <= v <= i32::MAX
}

/// Whether the pointer is over `hit` with the origin of its tree at `at`, as far as that is within
/// the coordinate range.
pub open spec fn pointer_over(under: Option<Hit>, hit: LocalHit, at_x: int, at_y: int) -> bool {
    &&& under is Some
    &&& under->0.surface == hit.surface
    &&& under->0.loc.x == hit.loc.x + at_x
    &&& under->0.loc.y == hit.loc.y + at_y
}

/// Where the layer at position `j` of the first output is on the plane.
pub open spec fn layer_x(s: StateView, j: int) -> int {
    s.outputs[0].layers@[j].geometry->0.loc.x + s.outputs[0].geometry->0.loc.x
}

/// Where the layer at position `j` of the first output is on the plane.
pub open spec fn layer_y(s: StateView, j: int) -> int {
    s.outputs[0].layers@[j].geometry->0.loc.y + s.outputs[0].geometry->0.loc.y
}

/// Whether a hit on the layer at position `j` of the first output has coordinates all the way.
pub open spec fn layer_hit_in_range(s: StateView, hit: LocalHit, j: int) -> bool {
    let layer = s.outputs[0].layers@[j].geometry->0.loc;
    &&& coordinate(hit.loc.x + layer.x)
    &&& coordinate(hit.loc.y + layer.y)
    &&& coordinate(hit.loc.x + layer_x(s, j))
    &&& coordinate(hit.loc.y + layer_y(s, j))
}

/// The kinds of layers, uppermost first: above the windows the overlay and the top layer, below them
/// the bottom layer and the background.
pub open spec fn layers_under(probe: Probe, rank: int) -> Option<LayerProbe> {
    if rank == 0 {
        probe.overlay
    } else if rank == 1 {
        probe.top
    } else if rank == 3 {
        probe.bottom
    } else if rank == 4 {
        probe.background
    } else {
        None
    }
}

/// What takes the input at the given rank; the windows come third.
pub open spec fn taker(probe: Probe, rank: int) -> Option<LocalHit> {
    if rank == 2 {
        window_taker(probe.window)
    } else {
        layer_taker(layers_under(probe, rank))
    }
}

/// While the session is not locked, the pointer is over what takes the input uppermost: overlay
/// layer, top layer, window, bottom layer or background, where that is on the plane; over nothing if
/// nothing takes the input or there is no output.
pub proof fn law_pointer_over_uppermost(s: StateView, probe: Probe, rank: int, j: int)
    requires
        !s.is_locked,
    ensures
        !has_output(s) ==> s.surface_under(probe) is None,
        taker(probe, 0) is None && taker(probe, 1) is None && taker(probe, 2) is None && taker(
            probe,
            3,
        ) is None && taker(probe, 4) is None ==> s.surface_under(probe) is None,
        has_output(s) && 0 <= rank < 5 && taker(probe, rank) is Some && (forall|r: int|
            0 <= r < rank ==> #[trigger] taker(probe, r) is None) ==> {
            let hit = taker(probe, rank)->0;
            &&& s.surface_under(probe) is Some
            &&& s.surface_under(probe)->0.surface == hit.surface
            &&& rank == 2 && coordinate(hit.loc.x + probe.window->0.loc.x) && coordinate(
                hit.loc.y + probe.window->0.loc.y,
            ) ==> pointer_over(
                s.surface_under(probe),
                hit,
                probe.window->0.loc.x as int,
                probe.window->0.loc.y as int,
            )
            &&& rank != 2 && layer_at(s, layers_under(probe, rank)->0.layer, j)
                && s.outputs[0].layers@[j].geometry is Some && layer_hit_in_range(s, hit, j)
                ==> pointer_over(s.surface_under(probe), hit, layer_x(s, j), layer_y(s, j))
        },
{
    assert(taker(probe, 0) is None || taker(probe, 0) is Some);
    assert(taker(probe, 1) is None || taker(probe, 1) is Some);
    assert(taker(probe, 2) is None || taker(probe, 2) is Some);
    assert(taker(probe, 3) is None || taker(probe, 3) is Some);
    if rank != 2 && 0 <= rank < 5 && layers_under(probe, rank) is Some && layer_at(
        s,
        layers_under(probe, rank)->0.layer,
        j,
    ) {
        lemma_layer_at(s, layers_under(probe, rank)->0.layer, j);
    }
}

/// Moving the pointer tells the client under it, and nobody else anything.
pub proof fn law_motion_follows_pointer(s: StateView, probe: Probe, serial: u32, time: u32)
    ensures
        s.process_input_event(InputEvent::PointerMotionAbsolute { probe, time }, serial) == (
        StateView {
            commands: s.commands + seq![
                Command::PointerMotion { under: s.surface_under(probe), serial, time },
                Command::PointerFrame,
            ],
            ..s
        }),
{
}

/// Keys go to whoever has the focus, and relative motions and other devices are left alone.
pub proof fn law_keys_are_passed_on(
    s: StateView,
    key: u32,
    pressed: bool,
    serial: u32,
    time: u32,
)
    ensures
        s.process_input_event(InputEvent::Keyboard { key, pressed, time }, serial) == (StateView {
            commands: s.commands.push(Command::KeyboardInput { key, pressed, serial, time }),
            ..s
        }),
        s.process_input_event(InputEvent::PointerMotion, serial) == s,
        s.process_input_event(InputEvent::Other, serial) == s,
{
}

/// What one axis of a scroll event says.
pub open spec fn axis_says(report: AxisReport, source: AxisSource, step: AxisStep) -> bool {
    &&& step.value <==> report.scrolled
    &&& step.v120 <==> report.scrolled && report.v120
    &&& step.stop <==> report.zero && source == AxisSource::Finger
}

/// A scroll event is passed on with its source: an axis that scrolled with its amount, and with its
/// wheel clicks if it has any; an axis of a finger that came to rest with that it stopped.
pub proof fn law_scrolling_is_passed_on(
    s: StateView,
    horizontal: AxisReport,
    vertical: AxisReport,
    source: AxisSource,
    serial: u32,
    time: u32,
)
    ensures
        ({
            let t = s.process_input_event(
                InputEvent::PointerAxis { horizontal, vertical, source, time },
                serial,
            );
            let n = s.commands.len() as int;
            &&& t == (StateView { commands: t.commands, ..s })
            &&& t.commands.len() == n + 2
            &&& s.commands.is_prefix_of(t.commands)
            &&& t.commands[n] is PointerAxis
            &&& t.commands[n]->PointerAxis_source == source
            &&& t.commands[n]->PointerAxis_time == time
            &&& axis_says(horizontal, source, t.commands[n]->PointerAxis_horizontal)
            &&& axis_says(vertical, source, t.commands[n]->PointerAxis_vertical)
            &&& t.commands[n + 1] == Command::PointerFrame
        }),
{
    let t = s.process_input_event(
        InputEvent::PointerAxis { horizontal, vertical, source, time },
        serial,
    );
    assert(s.commands =~= t.commands.take(s.commands.len() as int));
}

/// Where the pointer is told that it is over a window or a layer stops at the ends of the coordinate
/// range.
pub proof fn law_pointer_positions_stop_at_ends(s: StateView, probe: Probe, rank: int, j: int)
    requires
        !s.is_locked,
        has_output(s),
        0 <= rank < 5,
        taker(probe, rank) is Some,
        forall|r: int| 0 <= r < rank ==> #[trigger] taker(probe, r) is None,
        rank != 2 ==> layer_at(s, layers_under(probe, rank)->0.layer, j)
            && s.outputs[0].layers@[j].geometry is Some,
    ensures
        ({
            let hit = taker(probe, rank)->0;
            let at = s.surface_under(probe)->0.loc;
            let output = s.outputs[0].geometry->0.loc;
            let layer = s.outputs[0].layers@[j].geometry->0.loc;
            let window = probe.window->0.loc;
            &&& s.surface_under(probe) is Some
            &&& rank == 2 ==> at.x == surface_laws::in_range(hit.loc.x + window.x) && at.y
                == surface_laws::in_range(hit.loc.y + window.y)
            &&& rank != 2 ==> at.x == surface_laws::in_range(
                surface_laws::in_range(hit.loc.x + layer.x) + output.x,
            ) && at.y == surface_laws::in_range(
                surface_laws::in_range(hit.loc.y + layer.y) + output.y,
            )
        }),
{
    assert(taker(probe, 0) is None || taker(probe, 0) is Some);
    assert(taker(probe, 1) is None || taker(probe, 1) is Some);
    assert(taker(probe, 2) is None || taker(probe, 2) is Some);
    assert(taker(probe, 3) is None || taker(probe, 3) is Some);
    if rank != 2 {
        lemma_layer_at(s, layers_under(probe, rank)->0.layer, j);
    }
}

} // verus!
