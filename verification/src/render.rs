//! What a frame shows.

use vstd::prelude::*;
use crate::state::LockSurface;

verus! {

/// The color a frame starts from.
#[derive(Clone, Copy, Debug, PartialEq, Eq, Structural)]
pub enum ClearColor {
    /// The background behind normal desktop contents.
    Desktop,
    /// The solid fallback while the session is locked but no lock surface has content.
    Locked,
}

/// A part of a frame.
#[derive(Clone, Copy, Debug, PartialEq, Eq, Structural)]
pub enum OutputElements {
    /// The windows and layers of the plane.
    Space,
    /// The surface tree of a lock surface.
    Surface { surface: u64 },
}

/// The live ones among `surfaces`.
pub open spec fn live_locks(surfaces: Seq<LockSurface>) -> Seq<LockSurface> {
    surfaces.filter(|s: LockSurface| s.alive)
}

/// The parts of a frame, topmost first: the live lock surfaces while the session is locked, else
/// the plane.
pub open spec fn frame_elements(is_locked: bool, surfaces: Seq<LockSurface>) -> Seq<
    OutputElements,
> {
    if is_locked {
        live_locks(surfaces).map_values(
            |s: LockSurface| OutputElements::Surface { surface: s.surface },
        )
    } else {
        seq![OutputElements::Space]
    }
}

/// The color a frame starts from.
pub open spec fn frame_color(is_locked: bool) -> ClearColor {
    if is_locked {
        ClearColor::Locked
    } else {
        ClearColor::Desktop
    }
}

/// The surfaces of the live ones among `surfaces`.
pub(crate) fn live_surfaces(surfaces: &Vec<LockSurface>) -> (r: Vec<u64>)
    ensures
        r@ == live_locks(surfaces@).map_values(|s: LockSurface| s.surface),
{
    let ghost pred = |s: LockSurface| s.alive;
    let ghost name = |s: LockSurface| s.surface;
    let mut r: Vec<u64> = Vec::new();
    let n: usize = surfaces.len();
    let mut i: usize = 0;
    proof {
        reveal(Seq::filter);
        assert(surfaces@.take(0).filter(pred).map_values(name) =~= Seq::empty());
    }
    while i < n
        invariant
            n == surfaces@.len(),
            i <= n,
            pred == (|s: LockSurface| s.alive),
            name == (|s: LockSurface| s.surface),
            r@ == surfaces@.take(i as int).filter(pred).map_values(name),
        decreases n - i,
    {
        let s = surfaces[i];
        proof {
            let ss = surfaces@.take(i + 1);
            assert(ss.drop_last() =~= surfaces@.take(i as int));
            assert(ss.last() == s);
            reveal(Seq::filter);
            if pred(s) {
                assert(ss.filter(pred).map_values(name) =~= ss.drop_last().filter(pred).map_values(
                    name,
                ).push(s.surface));
            }
        }
        if s.alive {
            r.push(s.surface);
        }
        i = i + 1;
    }
    assert(surfaces@.take(n as int) =~= surfaces@);
    r
}

/// What to draw and on which color. Lock surfaces whose client is gone are not drawn: without any
/// other the screen shows the fallback color, never the desktop.
pub fn output_elements(is_locked: bool, lock_surfaces: &Vec<LockSurface>) -> (r: (
    Vec<OutputElements>,
    ClearColor,
))
    ensures
        r.0@ == frame_elements(is_locked, lock_surfaces@),
        r.1 == frame_color(is_locked),
{
    let mut elements: Vec<OutputElements> = Vec::new();
    if !is_locked {
        elements.push(OutputElements::Space);
        assert(elements@ =~= frame_elements(is_locked, lock_surfaces@));
        return (elements, ClearColor::Desktop);
    }
    let live = live_surfaces(lock_surfaces);
    let n: usize = live.len();
    let mut i: usize = 0;
    while i < n
        invariant
            n == live@.len(),
            i <= n,
            elements@.len() == i,
            forall|j: int|
                0 <= j < i ==> #[trigger] elements@[j] == (OutputElements::Surface {
                    surface: live@[j],
                }),
        decreases n - i,
    {
        elements.push(OutputElements::Surface { surface: live[i] });
        i = i + 1;
    }
    assert(elements@ =~= frame_elements(is_locked, lock_surfaces@));
    (elements, ClearColor::Locked)
}

/// A frame of a locked session shows nothing of the desktop.
pub proof fn law_locked_frame_hides_desktop(surfaces: Seq<LockSurface>)
    ensures
        !frame_elements(true, surfaces).contains(OutputElements::Space),
        frame_color(true) == ClearColor::Locked,
        forall|i: int|
            0 <= i < frame_elements(true, surfaces).len() ==> exists|k: int|
                0 <= k < surfaces.len() && (#[trigger] surfaces[k]).alive && (
                #[trigger] frame_elements(true, surfaces)[i]) == (OutputElements::Surface {
                    surface: surfaces[k].surface,
                }),
{
    let live = live_locks(surfaces);
    let pred = |s: LockSurface| s.alive;
    crate::sequences::lemma_filtered(surfaces, pred);
    assert forall|i: int| 0 <= i < frame_elements(true, surfaces).len() implies exists|k: int|
        0 <= k < surfaces.len() && (#[trigger] surfaces[k]).alive && (
        #[trigger] frame_elements(true, surfaces)[i]) == (OutputElements::Surface {
            surface: surfaces[k].surface,
        }) by {
        let k = surfaces.index_of(live[i]);
        assert(surfaces[k].alive);
    }
}

} // verus!
