//! What sums of positions, centered rectangles and proposed states are.

use vstd::prelude::*;
use crate::arrangement;
use crate::geometry::{Point, Rect, Size};
use crate::handlers::xdg_shell::mode_laws;
use crate::handlers::xdg_shell::placement_laws;
use crate::toplevel::{PendingChange, SizeChange, ToplevelState};

verus! {

/// Whether `r` is `v`, or the end of the coordinate range that `v` lies beyond.
pub open spec fn stops_at_ends(r: i32, v: int) -> bool {
    &&& -0x8000_0000 <= v <= 0x7fff_ffff ==> r == v
    &&& v > 0x7fff_ffff ==> r == 0x7fff_ffff
    &&& v < -0x8000_0000 ==> r == -0x8000_0000
}

/// Sums and differences of positions stop at the ends of the coordinate range; wide sums are exact.
pub proof fn law_position_arithmetic(a: Point, b: Point)
    ensures
        stops_at_ends(a.plus_spec(b).x, a.x + b.x),
        stops_at_ends(a.plus_spec(b).y, a.y + b.y),
        stops_at_ends(a.minus_spec(b).x, a.x - b.x),
        stops_at_ends(a.minus_spec(b).y, a.y - b.y),
        a.widened_spec().x == a.x,
        a.widened_spec().y == a.y,
        a.wide_plus_spec(b).x == a.x + b.x,
        a.wide_plus_spec(b).y == a.y + b.y,
{
}

/// Whether the difference of two lengths is a coordinate.
pub open spec fn comparable(a: Size, b: Size) -> bool {
    &&& -0x8000_0000 <= a.w - b.w <= 0x7fff_ffff
    &&& -0x8000_0000 <= a.h - b.h <= 0x7fff_ffff
}

/// The middle of a segment is at one place.
proof fn lemma_one_middle(x: int, y: int, len: int, outer_lo: int, outer_len: int)
    requires
        arrangement::shares_middle(x, len, outer_lo, outer_len),
        arrangement::shares_middle(y, len, outer_lo, outer_len),
    ensures
        x == y,
{
}

/// A window can be centered in an area just if the place in its middle, or at its corner where the
/// window is the larger one, is within the coordinate range; and there it goes.
pub proof fn law_centering(zone: Rect, geo: Rect)
    ensures
        zone.centering_fits(geo) <==> comparable(zone.size, geo.size)
            && placement_laws::center_in_range(geo.size, zone),
        zone.centering_fits(geo) ==> arrangement::centered_in(
            zone.centered_spec(geo),
            geo.size,
            zone,
        ),
{
    let x = zone.loc.x + crate::geometry::clamped_margin(zone.size.w as int, geo.size.w as int);
    let y = zone.loc.y + crate::geometry::clamped_margin(zone.size.h as int, geo.size.h as int);
    assert(arrangement::in_middle(
        x,
        geo.size.w as int,
        zone.loc.x as int,
        zone.size.w as int,
    ));
    assert(arrangement::in_middle(
        y,
        geo.size.h as int,
        zone.loc.y as int,
        zone.size.h as int,
    ));
    assert forall|v: int| #[trigger]
        arrangement::in_middle(
            v,
            geo.size.w as int,
            zone.loc.x as int,
            zone.size.w as int,
        ) implies v == x by {}
    assert forall|v: int| #[trigger]
        arrangement::in_middle(
            v,
            geo.size.h as int,
            zone.loc.y as int,
            zone.size.h as int,
        ) implies v == y by {}
}

/// A child can be put over its parent just if the place over the middle is within the coordinate
/// range; and there it goes.
pub proof fn law_placing_children(parent: Rect, child: Size)
    ensures
        parent.child_fits(child) <==> comparable(parent.size, child)
            && placement_laws::middle_in_range(child, parent),
        parent.child_fits(child) ==> arrangement::over_middle(
            parent.child_spec(child),
            child,
            parent,
        ),
{
    let x = parent.loc.x + crate::geometry::margin(parent.size.w as int, child.w as int);
    let y = parent.loc.y + crate::geometry::margin(parent.size.h as int, child.h as int);
    assert(arrangement::shares_middle(
        x,
        child.w as int,
        parent.loc.x as int,
        parent.size.w as int,
    ));
    assert(arrangement::shares_middle(
        y,
        child.h as int,
        parent.loc.y as int,
        parent.size.h as int,
    ));
    assert forall|v: int| #[trigger]
        arrangement::shares_middle(
            v,
            child.w as int,
            parent.loc.x as int,
            parent.size.w as int,
        ) implies v == x by {
        lemma_one_middle(v, x, child.w as int, parent.loc.x as int, parent.size.w as int);
    }
    assert forall|v: int| #[trigger]
        arrangement::shares_middle(
            v,
            child.h as int,
            parent.loc.y as int,
            parent.size.h as int,
        ) implies v == y by {
        lemma_one_middle(v, y, child.h as int, parent.loc.y as int, parent.size.h as int);
    }
}

/// A maximum size lets a window fill an area just if no bound that it sets is below the area.
pub proof fn law_filling(max: Size, area: Size)
    ensures
        max.fills_spec(area) <==> arrangement::can_fill(max, area),
{
}

/// A rectangle that has room in another one is moved into it as little as needed.
pub proof fn law_keeping_inside(area: Rect, p: Point, inner: Size)
    requires
        inner.w <= area.size.w,
        inner.h <= area.size.h,
        area.loc.x + area.size.w - inner.w <= 0x7fff_ffff,
        area.loc.y + area.size.h - inner.h <= 0x7fff_ffff,
    ensures
        area.has_room_for(inner),
        mode_laws::moved_inside(
            p.x as int,
            area.kept_inside_spec(p, inner).x as int,
            inner.w as int,
            area.loc.x as int,
            area.loc.x + area.size.w,
        ),
        mode_laws::moved_inside(
            p.y as int,
            area.kept_inside_spec(p, inner).y as int,
            inner.h as int,
            area.loc.y as int,
            area.loc.y + area.size.h,
        ),
{
}

/// A change of the state proposed to a client sets just what it mentions: a size, or none; bounds;
/// and whether the window is maximized, fullscreen and activated.
pub proof fn law_proposed_changes(before: ToplevelState, change: PendingChange)
    ensures
        ({
            let after = before.changed(change);
            &&& change.size == SizeChange::Keep ==> after.size == before.size
            &&& change.size == SizeChange::Clear ==> after.size is None
            &&& change.size is To ==> after.size == Some(change.size->To_0)
            &&& change.bounds is Some ==> after.bounds == change.bounds
            &&& change.bounds is None ==> after.bounds == before.bounds
            &&& change.maximized is None ==> after.maximized == before.maximized
            &&& change.maximized == Some(true) ==> after.maximized
            &&& change.maximized == Some(false) ==> !after.maximized
            &&& change.fullscreen is None ==> after.fullscreen == before.fullscreen
            &&& change.fullscreen == Some(true) ==> after.fullscreen
            &&& change.fullscreen == Some(false) ==> !after.fullscreen
            &&& change.activated is None ==> after.activated == before.activated
            &&& change.activated == Some(true) ==> after.activated
            &&& change.activated == Some(false) ==> !after.activated
        }),
{
}

} // verus!
