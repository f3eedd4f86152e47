//! Points, sizes and rectangles in the logical coordinate space of the desktop.

use vstd::prelude::*;

verus! {

/// A position in logical pixels.
#[derive(Clone, Copy, Debug, PartialEq, Eq, Structural)]
pub struct Point {
    pub x: i32,
    pub y: i32,
}

/// A position whose coordinates are sums of logical positions that must not saturate.
#[derive(Clone, Copy, Debug, PartialEq, Eq, Structural)]
pub struct WidePoint {
    pub x: i64,
    pub y: i64,
}

/// An extent in logical pixels.
#[derive(Clone, Copy, Debug, PartialEq, Eq, Structural)]
pub struct Size {
    pub w: i32,
    pub h: i32,
}

/// An axis-aligned rectangle in logical pixels.
#[derive(Clone, Copy, Debug, PartialEq, Eq, Structural)]
pub struct Rect {
    pub loc: Point,
    pub size: Size,
}

/// Whether `v` is representable as an `i32`.
pub open spec fn in_i32(v: int) -> bool {
    i32::MIN <= v <= i32::MAX
}

/// The `i32` nearest to `v`.
pub open spec fn saturated(v: int) -> i32 {
    if v > i32::MAX {
        i32::MAX
    } else if v < i32::MIN {
        i32::MIN
    } else {
        v as i32
    }
}

/// How far a segment of length `inner` is moved to sit in the middle of one of length `outer`,
/// without ever starting before it.
pub open spec fn clamped_margin(outer: int, inner: int) -> int {
    if outer > inner {
        (outer - inner) / 2
    } else {
        0
    }
}

/// How far a segment of length `inner` is moved to share its middle with one of length `outer`;
/// negative when `inner` is the longer one, rounded toward zero.
pub open spec fn margin(outer: int, inner: int) -> int {
    if outer >= inner {
        (outer - inner) / 2
    } else {
        -((inner - outer) / 2)
    }
}

impl Point {
    pub open spec fn plus_spec(self, other: Point) -> Point {
        Point { x: saturated(self.x + other.x), y: saturated(self.y + other.y) }
    }

    pub open spec fn minus_spec(self, other: Point) -> Point {
        Point { x: saturated(self.x - other.x), y: saturated(self.y - other.y) }
    }

    /// Coordinate-wise saturating sum.
    pub fn plus(self, other: Point) -> (r: Point)
        ensures
            r == self.plus_spec(other),
    {
        Point {
            x: saturate(self.x as i64 + other.x as i64),
            y: saturate(self.y as i64 + other.y as i64),
        }
    }

    /// Coordinate-wise saturating difference.
    pub fn minus(self, other: Point) -> (r: Point)
        ensures
            r == self.minus_spec(other),
    {
        Point {
            x: saturate(self.x as i64 - other.x as i64),
            y: saturate(self.y as i64 - other.y as i64),
        }
    }

    pub open spec fn widened_spec(self) -> WidePoint {
        WidePoint { x: self.x as i64, y: self.y as i64 }
    }

    /// The same position with wider coordinates.
    pub fn widened(self) -> (r: WidePoint)
        ensures
            r == self.widened_spec(),
    {
        WidePoint { x: self.x as i64, y: self.y as i64 }
    }

    pub open spec fn wide_plus_spec(self, other: Point) -> WidePoint {
        WidePoint { x: (self.x + other.x) as i64, y: (self.y + other.y) as i64 }
    }

    /// Coordinate-wise exact sum.
    pub fn wide_plus(self, other: Point) -> (r: WidePoint)
        ensures
            r == self.wide_plus_spec(other),
            r.x == self.x + other.x,
            r.y == self.y + other.y,
    {
        WidePoint { x: self.x as i64 + other.x as i64, y: self.y as i64 + other.y as i64 }
    }
}

/// The `i32` nearest to `v`.
fn saturate(v: i64) -> (r: i32)
    ensures
        r == saturated(v as int),
{
    if v > i32::MAX as i64 {
        i32::MAX
    } else if v < i32::MIN as i64 {
        i32::MIN
    } else {
        v as i32
    }
}

impl Size {
    /// Whether a window with this declared maximum size can fill `zone`; a zero bound is no bound.
    pub open spec fn fills_spec(self, zone: Size) -> bool {
        &&& self.w == 0 || self.w >= zone.w
        &&& self.h == 0 || self.h >= zone.h
    }
}

/// Whether a toplevel that declared `max_size` can fill `zone`. Fixed-size windows (a maximum
/// smaller than the zone) never do.
pub fn fills_zone(max_size: Size, zone: Size) -> (r: bool)
    ensures
        r == max_size.fills_spec(zone),
{
    (max_size.w == 0 || max_size.w >= zone.w) && (max_size.h == 0 || max_size.h >= zone.h)
}

impl Rect {
    /// Whether centering `geo` in this rectangle stays within the coordinate range.
    pub open spec fn centering_fits(self, geo: Rect) -> bool {
        &&& in_i32(self.size.w - geo.size.w)
        &&& in_i32(self.size.h - geo.size.h)
        &&& in_i32(self.loc.x + clamped_margin(self.size.w as int, geo.size.w as int))
        &&& in_i32(self.loc.y + clamped_margin(self.size.h as int, geo.size.h as int))
    }

    /// The top-left corner that centers `geo` in this rectangle, kept inside it.
    pub open spec fn centered_spec(self, geo: Rect) -> Point {
        Point {
            x: (self.loc.x + clamped_margin(self.size.w as int, geo.size.w as int)) as i32,
            y: (self.loc.y + clamped_margin(self.size.h as int, geo.size.h as int)) as i32,
        }
    }

    /// Whether placing a child of extent `child` over the middle of this rectangle stays within
    /// the coordinate range.
    pub open spec fn child_fits(self, child: Size) -> bool {
        &&& in_i32(self.size.w - child.w)
        &&& in_i32(self.size.h - child.h)
        &&& in_i32(self.loc.x + margin(self.size.w as int, child.w as int))
        &&& in_i32(self.loc.y + margin(self.size.h as int, child.h as int))
    }

    /// The top-left corner that puts a child of extent `child` over the middle of this rectangle.
    pub open spec fn child_spec(self, child: Size) -> Point {
        Point {
            x: (self.loc.x + margin(self.size.w as int, child.w as int)) as i32,
            y: (self.loc.y + margin(self.size.h as int, child.h as int)) as i32,
        }
    }

    /// Whether the far corner of this rectangle stays within the coordinate range.
    pub open spec fn far_corner_fits(self) -> bool {
        &&& in_i32(self.loc.x + self.size.w)
        &&& in_i32(self.loc.y + self.size.h)
    }

    /// Whether a rectangle of extent `inner` has room inside this one.
    pub open spec fn has_room_for(self, inner: Size) -> bool {
        inner.w <= self.size.w && inner.h <= self.size.h
    }

    /// Whether a rectangle of extent `inner` at `p` lies inside this one.
    pub open spec fn encloses(self, p: Point, inner: Size) -> bool {
        &&& self.loc.x <= p.x && p.x + inner.w <= self.loc.x + self.size.w
        &&& self.loc.y <= p.y && p.y + inner.h <= self.loc.y + self.size.h
    }

    /// The position nearest to `p` at which a rectangle of extent `inner` lies inside this one.
    pub open spec fn kept_inside_spec(self, p: Point, inner: Size) -> Point {
        Point {
            x: nearest(p.x as int, self.loc.x as int, self.loc.x + self.size.w - inner.w) as i32,
            y: nearest(p.y as int, self.loc.y as int, self.loc.y + self.size.h - inner.h) as i32,
        }
    }

    /// Moves `p` as little as needed for a rectangle of extent `inner` at it to lie inside this
    /// one.
    pub fn kept_inside(self, p: Point, inner: Size) -> (r: Point)
        requires
            self.has_room_for(inner),
            self.far_corner_fits(),
            in_i32(self.loc.x + self.size.w - inner.w),
            in_i32(self.loc.y + self.size.h - inner.h),
        ensures
            r == self.kept_inside_spec(p, inner),
            self.encloses(r, inner),
            self.encloses(p, inner) ==> r == p,
    {
        Point {
            x: clamp(p.x, self.loc.x, self.loc.x + self.size.w - inner.w),
            y: clamp(p.y, self.loc.y, self.loc.y + self.size.h - inner.h),
        }
    }
}

/// Whether `v` is representable as an `i32`.
fn fits_i32(v: i64) -> (r: bool)
    ensures
        r == in_i32(v as int),
{
    i32::MIN as i64 <= v && v <= i32::MAX as i64
}

impl Rect {
    /// Whether [`centered_loc`] can place `geo` in this rectangle.
    pub fn can_center(self, geo: Rect) -> (r: bool)
        ensures
            r == self.centering_fits(geo),
    {
        let dw: i64 = self.size.w as i64 - geo.size.w as i64;
        let dh: i64 = self.size.h as i64 - geo.size.h as i64;
        let mx: i64 = if dw > 0 { dw / 2 } else { 0 };
        let my: i64 = if dh > 0 { dh / 2 } else { 0 };
        fits_i32(dw) && fits_i32(dh) && fits_i32(self.loc.x as i64 + mx) && fits_i32(
            self.loc.y as i64 + my,
        )
    }

    /// Whether [`child_loc`] can place a child of extent `child` over this rectangle.
    pub fn can_place_child(self, child: Size) -> (r: bool)
        ensures
            r == self.child_fits(child),
    {
        let dw: i64 = self.size.w as i64 - child.w as i64;
        let dh: i64 = self.size.h as i64 - child.h as i64;
        fits_i32(dw) && fits_i32(dh) && fits_i32(self.loc.x as i64 + dw / 2) && fits_i32(
            self.loc.y as i64 + dh / 2,
        )
    }

    /// Whether [`Rect::kept_inside`] can move a rectangle of extent `inner` that has room.
    pub fn can_keep_inside(self, inner: Size) -> (r: bool)
        ensures
            r == {
                &&& self.far_corner_fits()
                &&& in_i32(self.loc.x + self.size.w - inner.w)
                &&& in_i32(self.loc.y + self.size.h - inner.h)
            },
    {
        let x: i64 = self.loc.x as i64 + self.size.w as i64;
        let y: i64 = self.loc.y as i64 + self.size.h as i64;
        fits_i32(x) && fits_i32(y) && fits_i32(x - inner.w as i64) && fits_i32(y - inner.h as i64)
    }
}

/// The value of `lo..=hi` nearest to `v`.
pub open spec fn nearest(v: int, lo: int, hi: int) -> int {
    if v < lo {
        lo
    } else if v > hi {
        hi
    } else {
        v
    }
}

/// The value of `lo..=hi` nearest to `v`.
fn clamp(v: i32, lo: i32, hi: i32) -> (r: i32)
    requires
        lo <= hi,
    ensures
        r == nearest(v as int, lo as int, hi as int),
{
    if v < lo {
        lo
    } else if v > hi {
        hi
    } else {
        v
    }
}

/// Centers `geo` within `zone`, clamped to keep its top-left corner inside the zone.
pub fn centered_loc(zone: Rect, geo: Rect) -> (r: Point)
    requires
        zone.centering_fits(geo),
    ensures
        r == zone.centered_spec(geo),
        zone.loc.x <= r.x,
        zone.loc.y <= r.y,
        zone.has_room_for(geo.size) ==> zone.encloses(r, geo.size),
{
    let dw: i32 = zone.size.w - geo.size.w;
    let dh: i32 = zone.size.h - geo.size.h;
    let mx: i32 = if dw > 0 { dw / 2 } else { 0 };
    let my: i32 = if dh > 0 { dh / 2 } else { 0 };
    Point { x: zone.loc.x + mx, y: zone.loc.y + my }
}

/// Places a child of extent `child` over the middle of `parent`.
pub fn child_loc(parent: Rect, child: Size) -> (r: Point)
    requires
        parent.child_fits(child),
    ensures
        r == parent.child_spec(child),
{
    Point {
        x: parent.loc.x + (parent.size.w - child.w) / 2,
        y: parent.loc.y + (parent.size.h - child.h) / 2,
    }
}

} // verus!
