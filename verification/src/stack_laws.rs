//! What the moves of a window do to the stack.

use vstd::prelude::*;
use crate::arrangement;
use crate::arrangement::{lemma_lies, lemma_others};
use crate::geometry::Point;
use crate::space;
use crate::space::{
    lemma_level, lemma_mapped_below, lemma_moves, lemma_raised_above, Element,
};
use crate::state::StateView;

verus! {

/// Whether no window is there twice.
pub open spec fn no_window_twice(es: Seq<Element>) -> bool {
    forall|i: int, j: int|
        #![trigger es[i], es[j]]
        0 <= i < j < es.len() ==> es[i].window != es[j].window
}

/// Whether somewhere in the stack `upper` is directly above `lower`.
pub open spec fn directly_above(es: Seq<Element>, upper: u64, lower: u64) -> bool {
    exists|i: int|
        0 <= i < es.len() - 1 && (#[trigger] es[i]).window == lower && es[i + 1].window == upper
}

/// A window that is mapped is on top, where it was mapped; one that is unmapped is gone. The others
/// stay as they were.
pub proof fn law_mapping(es: Seq<Element>, w: u64, loc: Point)
    requires
        no_window_twice(es),
    ensures
        space::unmapped(es, w) == arrangement::others(es, w),
        space::mapped(es, w, loc) == arrangement::others(es, w).push(Element { window: w, loc }),
{
    assert(space::distinct(es));
    lemma_others(es, w);
}

/// A window that is mapped below another one is directly below it, where it was mapped; if the other
/// is not there, it is on top. The others stay as they were.
pub proof fn law_mapping_below(es: Seq<Element>, w: u64, loc: Point, reference: u64)
    requires
        no_window_twice(es),
        reference != w,
    ensures
        ({
            let t = space::mapped_below(es, w, loc, reference);
            &&& no_window_twice(t)
            &&& arrangement::others(t, w) == arrangement::others(es, w)
            &&& arrangement::lies_at(t, w, loc)
            &&& arrangement::present(es, reference) ==> directly_above(t, reference, w)
            &&& !arrangement::present(es, reference) ==> t.last() == (Element { window: w, loc })
        }),
{
    assert(space::distinct(es));
    let t = space::mapped_below(es, w, loc, reference);
    lemma_mapped_below(es, w, loc, reference);
    lemma_others(es, w);
    lemma_others(t, w);
    lemma_moves(es, w, loc);
    let u = space::unmapped(es, w);
    assert(space::stacked(u, reference) <==> space::stacked(es, reference));
    let k = if space::stacked(u, reference) {
        space::level(u, reference)
    } else {
        u.len() as int
    };
    assert(t[k] == (Element { window: w, loc }));
    lemma_level(t, k);
    lemma_lies(t);
    if space::stacked(es, reference) {
        assert(t[k + 1] == u[k]);
        assert(t[k].window == w && t[k + 1].window == reference);
    }
    assert(no_window_twice(t));
}

/// A window that is raised is on top, at its place; the others stay as they were, and so does
/// everything if it is not there.
pub proof fn law_raising(es: Seq<Element>, w: u64, at: Point)
    requires
        no_window_twice(es),
    ensures
        !arrangement::present(es, w) ==> space::raised(es, w) == es,
        arrangement::lies_at(es, w, at) ==> space::raised(es, w) == arrangement::others(
            es,
            w,
        ).push(Element { window: w, loc: at }),
{
    assert(space::distinct(es));
    lemma_others(es, w);
    lemma_lies(es);
    assert(arrangement::present(es, w) <==> space::stacked(es, w));
}

/// A window that is moved is where it was moved to, at its level; all else stays as it was.
pub proof fn law_moving(es: Seq<Element>, w: u64, loc: Point, i: int)
    requires
        no_window_twice(es),
        0 <= i < es.len(),
    ensures
        space::relocated(es, w, loc).len() == es.len(),
        space::relocated(es, w, loc)[i] == if es[i].window == w {
            Element { window: w, loc }
        } else {
            es[i]
        },
{
    assert(space::distinct(es));
    if es[i].window == w {
        lemma_level(es, i);
    } else if space::stacked(es, w) {
        assert(es[space::level(es, w)].window == w);
    }
}

/// A window that is raised above another one goes directly above it if it was below it; else nothing
/// changes. The others stay as they were, and all keep their places.
pub proof fn law_raising_above(es: Seq<Element>, w: u64, reference: u64)
    requires
        no_window_twice(es),
        reference != w,
    ensures
        ({
            let t = space::raised_above(es, w, reference);
            let both = arrangement::present(es, w) && arrangement::present(es, reference);
            &&& both && arrangement::above(es, reference, w) ==> {
                &&& directly_above(t, w, reference)
                &&& arrangement::others(t, w) == arrangement::others(es, w)
                &&& forall|at: Point|
                    #[trigger] arrangement::lies_at(es, w, at) ==> arrangement::lies_at(t, w, at)
            }
            &&& !both || arrangement::above(es, w, reference) ==> t == es
        }),
{
    assert(space::distinct(es));
    let t = space::raised_above(es, w, reference);
    lemma_raised_above(es, w, reference);
    lemma_lies(es);
    lemma_lies(t);
    assert(arrangement::present(es, w) <==> space::stacked(es, w));
    assert(arrangement::present(es, reference) <==> space::stacked(es, reference));
    if space::stacked(es, w) && space::stacked(es, reference) {
        let a = space::level(es, w);
        let b = space::level(es, reference);
        assert(es[a].window == w && es[b].window == reference);
        if arrangement::above(es, reference, w) {
            assert(a < b);
            assert(t[b] == es[a]);
            assert(t[b - 1] == es[b]);
            assert(t[b - 1].window == reference && t[b - 1 + 1].window == w);
            lemma_others(es, w);
            lemma_others(t, w);
            lemma_level(t, b);
            assert(t.remove(b) =~= es.remove(a));
            assert forall|at: Point| #[trigger] arrangement::lies_at(
                es,
                w,
                at,
            ) implies arrangement::lies_at(t, w, at) by {
                assert(space::loc_of(t, w) == space::loc_of(es, w));
                assert(space::stacked(t, w));
            }
        }
        if arrangement::above(es, w, reference) {
            assert(b < a);
        }
    }
}

/// The windows can be stacked as asked for just if none is there twice and every one is known.
pub proof fn law_stacking(s: StateView, es: Seq<Element>)
    ensures
        s.can_stack(es) <==> no_window_twice(es) && forall|i: int|
            0 <= i < es.len() ==> s.windows.contains_key((#[trigger] es[i]).window),
{
    if s.can_stack(es) {
        assert forall|i: int| 0 <= i < es.len() implies s.windows.contains_key(
            (#[trigger] es[i]).window,
        ) by {
            assert(space::stacked(es, es[i].window));
        }
    }
    if no_window_twice(es) {
        assert(space::distinct(es));
    }
}

/// A desktop is in order just if no window is stacked twice, every stacked window and every toplevel
/// is known, and the toplevel list is in order.
pub proof fn law_order_of_desktop(s: StateView)
    ensures
        s.wf() <==> {
            &&& no_window_twice(s.elements)
            &&& forall|i: int|
                0 <= i < s.elements.len() ==> s.windows.contains_key(
                    (#[trigger] s.elements[i]).window,
                )
            &&& forall|w: u64| #[trigger] s.toplevels.contains_key(w) ==> s.windows.contains_key(w)
            &&& s.foreign.wf()
        },
{
    law_stacking(s, s.elements);
}

} // verus!
