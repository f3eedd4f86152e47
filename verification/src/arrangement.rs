//! How windows lie on the plane and on each other, as the laws speak of it.

use vstd::prelude::*;
use crate::geometry::{Point, Rect, Size};
use crate::space::Element;
use crate::state::StateView;
use crate::toplevel::WindowMode;

verus! {

/// Whether the window `w` is in the stack.
pub open spec fn present(es: Seq<Element>, w: u64) -> bool {
    exists|i: int| 0 <= i < es.len() && (#[trigger] es[i]).window == w
}

/// Whether the window `w` is in the stack just once, at `loc`.
pub open spec fn lies_at(es: Seq<Element>, w: u64, loc: Point) -> bool {
    &&& present(es, w)
    &&& forall|i: int| 0 <= i < es.len() && (#[trigger] es[i]).window == w ==> es[i].loc == loc
}

/// Whether `upper` is above `lower` wherever both are in the stack.
pub open spec fn above(es: Seq<Element>, upper: u64, lower: u64) -> bool {
    forall|i: int, j: int|
        #![trigger es[i], es[j]]
        0 <= i < es.len() && 0 <= j < es.len() && es[i].window == lower && es[j].window == upper
            ==> i < j
}

/// Whether `a` and `b` hold the same windows but for `w`, at the same places and in the same order.
pub open spec fn same_others(a: Seq<Element>, b: Seq<Element>, w: u64) -> bool {
    others(a, w) == others(b, w)
}

/// The stack without the window `w`.
pub open spec fn others(es: Seq<Element>, w: u64) -> Seq<Element>
    decreases es.len(),
{
    if es.len() == 0 {
        es
    } else if es.last().window == w {
        others(es.drop_last(), w)
    } else {
        others(es.drop_last(), w).push(es.last())
    }
}

/// Whether a segment shares its middle with an outer one, give or take half a pixel, which a segment
/// that is shorter than the outer one lacks before it and a longer one behind it.
pub open spec fn shares_middle(lo: int, len: int, outer_lo: int, outer_len: int) -> bool {
    let before = lo - outer_lo;
    let behind = outer_len - len - before;
    if outer_len >= len {
        before == behind || before + 1 == behind
    } else {
        before == behind || before == behind + 1
    }
}

/// Whether a child of extent `child` at `loc` lies over the middle of `parent`.
pub open spec fn over_middle(loc: Point, child: Size, parent: Rect) -> bool {
    &&& shares_middle(loc.x as int, child.w as int, parent.loc.x as int, parent.size.w as int)
    &&& shares_middle(loc.y as int, child.h as int, parent.loc.y as int, parent.size.h as int)
}

/// Whether a segment lies in the middle of an outer one, or at its start if it is the longer one.
pub open spec fn in_middle(lo: int, len: int, outer_lo: int, outer_len: int) -> bool {
    if outer_len >= len {
        shares_middle(lo, len, outer_lo, outer_len)
    } else {
        lo == outer_lo
    }
}

/// Whether a window of extent `inner` at `loc` is centered in `area` with its corner inside.
pub open spec fn centered_in(loc: Point, inner: Size, area: Rect) -> bool {
    &&& in_middle(loc.x as int, inner.w as int, area.loc.x as int, area.size.w as int)
    &&& in_middle(loc.y as int, inner.h as int, area.loc.y as int, area.size.h as int)
}

/// Whether a window with the maximum size `max` can be as large as `area`; a bound of zero is none.
pub open spec fn can_fill(max: Size, area: Size) -> bool {
    !(max.w != 0 && max.w < area.w) && !(max.h != 0 && max.h < area.h)
}

/// Whether the window `w` is in the stack and fullscreen.
pub open spec fn shown_fullscreen(s: StateView, w: u64) -> bool {
    present(s.elements, w) && s.toplevels.contains_key(w) && s.toplevels[w].mode
        == WindowMode::Fullscreen
}

/// Whether no window in the stack is fullscreen.
pub open spec fn nothing_fullscreen(s: StateView) -> bool {
    forall|w: u64| !#[trigger] shown_fullscreen(s, w)
}

/// In a stack without repetition the others are what is left when the window is taken out.
pub proof fn lemma_others(es: Seq<Element>, w: u64)
    requires
        crate::space::distinct(es),
    ensures
        others(es, w) == crate::space::unmapped(es, w),
    decreases es.len(),
{
    if es.len() > 0 {
        let rest = es.drop_last();
        let n = es.len() as int;
        assert(forall|i: int| 0 <= i < rest.len() ==> #[trigger] rest[i] == es[i]);
        assert(es[n - 1] == es.last());
        assert(crate::space::distinct(rest));
        lemma_others(rest, w);
        if es.last().window == w {
            crate::space::lemma_level(es, n - 1);
            assert(!crate::space::stacked(rest, w)) by {
                if crate::space::stacked(rest, w) {
                    let i = crate::space::level(rest, w);
                    assert(es[i].window == w);
                }
            }
            assert(crate::space::unmapped(es, w) =~= rest);
        } else if crate::space::stacked(es, w) {
            let l = crate::space::level(es, w);
            assert(rest[l].window == w);
            crate::space::lemma_level(rest, l);
            assert(crate::space::unmapped(es, w) =~= crate::space::unmapped(rest, w).push(
                es.last(),
            ));
        } else {
            assert(!crate::space::stacked(rest, w)) by {
                if crate::space::stacked(rest, w) {
                    let i = crate::space::level(rest, w);
                    assert(es[i].window == w);
                }
            }
            assert(rest.push(es.last()) =~= es);
        }
    }
}

/// Membership, place and order in a stack without repetition.
pub proof fn lemma_lies(es: Seq<Element>)
    requires
        crate::space::distinct(es),
    ensures
        forall|w: u64| #[trigger] present(es, w) <==> crate::space::stacked(es, w),
        forall|w: u64, loc: Point|
            #[trigger] lies_at(es, w, loc) <==> crate::space::stacked(es, w)
                && crate::space::loc_of(es, w) == loc,
        forall|u: u64, l: u64|
            crate::space::stacked(es, u) && crate::space::stacked(es, l)
                && crate::space::level(es, l) < crate::space::level(es, u) ==> #[trigger] above(
                es,
                u,
                l,
            ),
{
    assert forall|w: u64, loc: Point| #[trigger] lies_at(es, w, loc) <==> crate::space::stacked(
        es,
        w,
    ) && crate::space::loc_of(es, w) == loc by {
        if crate::space::stacked(es, w) {
            let l = crate::space::level(es, w);
            assert(es[l].window == w);
        }
    }
    assert forall|u: u64, l: u64|
        crate::space::stacked(es, u) && crate::space::stacked(es, l) && crate::space::level(es, l)
            < crate::space::level(es, u) implies #[trigger] above(es, u, l) by {
        assert forall|i: int, j: int|
            #![trigger es[i], es[j]]
            0 <= i < es.len() && 0 <= j < es.len() && es[i].window == l && es[j].window
                == u implies i < j by {
            crate::space::lemma_level(es, i);
            crate::space::lemma_level(es, j);
        }
    }
}

} // verus!
