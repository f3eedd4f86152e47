//! The two-dimensional plane that windows and outputs are mapped on.
//!
//! [`Space`] holds what the window management reads of that plane: the outputs with the area that
//! panels leave free, and the windows in stacking order, bottom first.

use vstd::prelude::*;
use crate::geometry::{Point, Rect};

verus! {

/// Where a layer surface sits relative to the windows.
#[derive(Clone, Copy, Debug, PartialEq, Eq, Structural)]
pub enum LayerKind {
    Background,
    Bottom,
    Top,
    Overlay,
}

/// How a layer surface wants to receive keyboard input.
#[derive(Clone, Copy, Debug, PartialEq, Eq, Structural)]
pub enum Interactivity {
    Never,
    Exclusive,
    OnDemand,
}

/// A layer surface (panel, launcher, wallpaper) mapped on an output.
#[derive(Clone, Copy, Debug, PartialEq, Eq)]
pub struct Layer {
    pub surface: u64,
    /// Position and size on the output, once arranged.
    pub geometry: Option<Rect>,
    pub kind: LayerKind,
    pub interactivity: Interactivity,
    pub initial_configure_sent: bool,
}

/// An output together with its layer surfaces.
#[derive(Debug, PartialEq, Eq)]
pub struct Output {
    pub id: u64,
    /// Its place on the plane; absent while it has no mode.
    pub geometry: Option<Rect>,
    /// The area left over once panels have claimed their exclusive strips.
    pub zone: Rect,
    pub layers: Vec<Layer>,
}

/// A window on the plane.
#[derive(Clone, Copy, Debug, PartialEq, Eq, Structural)]
pub struct Element {
    pub window: u64,
    pub loc: Point,
}

/// The outputs and the stacked windows.
#[derive(Debug, PartialEq, Eq)]
pub struct Space {
    pub outputs: Vec<Output>,
    /// In stacking order, bottom first.
    pub elements: Vec<Element>,
}

/// Whether no window is stacked twice.
pub open spec fn distinct(es: Seq<Element>) -> bool {
    forall|i: int, j: int|
        #![trigger es[i], es[j]]
        0 <= i < es.len() && 0 <= j < es.len() && es[i].window == es[j].window ==> i == j
}

/// Whether `w` is stacked.
pub open spec fn stacked(es: Seq<Element>, w: u64) -> bool {
    exists|i: int| 0 <= i < es.len() && (#[trigger] es[i]).window == w
}

/// The position of `w` in the stack.
pub open spec fn level(es: Seq<Element>, w: u64) -> int
    recommends
        stacked(es, w),
{
    choose|i: int| 0 <= i < es.len() && (#[trigger] es[i]).window == w
}

/// The location of `w`.
pub open spec fn loc_of(es: Seq<Element>, w: u64) -> Point
    recommends
        stacked(es, w),
{
    es[level(es, w)].loc
}

/// The stack without `w`.
pub open spec fn unmapped(es: Seq<Element>, w: u64) -> Seq<Element> {
    if stacked(es, w) {
        es.remove(level(es, w))
    } else {
        es
    }
}

/// The stack with `w` on top, at `loc`.
pub open spec fn mapped(es: Seq<Element>, w: u64, loc: Point) -> Seq<Element> {
    unmapped(es, w).push(Element { window: w, loc })
}

/// The stack with `w` directly below `reference`, at `loc`; on top when `reference` is not stacked.
pub open spec fn mapped_below(es: Seq<Element>, w: u64, loc: Point, reference: u64) -> Seq<
    Element,
> {
    let u = unmapped(es, w);
    if stacked(u, reference) {
        u.insert(level(u, reference), Element { window: w, loc })
    } else {
        u.push(Element { window: w, loc })
    }
}

/// The stack with `w` moved to the top; unchanged when `w` is not stacked.
pub open spec fn raised(es: Seq<Element>, w: u64) -> Seq<Element> {
    if stacked(es, w) {
        mapped(es, w, loc_of(es, w))
    } else {
        es
    }
}

/// The stack with `w` moved to `loc` in place; unchanged when `w` is not stacked.
pub open spec fn relocated(es: Seq<Element>, w: u64, loc: Point) -> Seq<Element> {
    if stacked(es, w) {
        es.update(level(es, w), Element { window: w, loc })
    } else {
        es
    }
}

/// The stack with `w` moved directly above `reference` when it is below it.
pub open spec fn raised_above(es: Seq<Element>, w: u64, reference: u64) -> Seq<Element> {
    if stacked(es, w) && stacked(es, reference) && level(es, w) < level(es, reference) {
        es.remove(level(es, w)).insert(level(es, reference), es[level(es, w)])
    } else {
        es
    }
}

/// The windows of a stack, bottom first.
pub open spec fn windows_of(es: Seq<Element>) -> Seq<u64> {
    es.map_values(|e: Element| e.window)
}

/// In a stack without repetition the position of a window is the only one that holds it.
pub proof fn lemma_level(es: Seq<Element>, i: int)
    requires
        distinct(es),
        0 <= i < es.len(),
    ensures
        stacked(es, es[i].window),
        level(es, es[i].window) == i,
{
    let l = level(es, es[i].window);
    assert(0 <= l < es.len() && es[l].window == es[i].window);
}

/// The moves keep a stack free of repetition, and change only whether the moved window is in it.
pub proof fn lemma_moves(es: Seq<Element>, w: u64, loc: Point)
    requires
        distinct(es),
    ensures
        distinct(unmapped(es, w)),
        distinct(mapped(es, w, loc)),
        distinct(raised(es, w)),
        distinct(relocated(es, w, loc)),
        forall|v: u64| #[trigger] stacked(unmapped(es, w), v) <==> stacked(es, v) && v != w,
        forall|v: u64| #[trigger] stacked(mapped(es, w, loc), v) <==> stacked(es, v) || v == w,
        forall|v: u64| #[trigger] stacked(raised(es, w), v) <==> stacked(es, v),
        forall|v: u64| #[trigger] stacked(relocated(es, w, loc), v) <==> stacked(es, v),
        windows_of(relocated(es, w, loc)) == windows_of(es),
{
    lemma_unmapped(es, w);
    lemma_mapped(es, w, loc);
    if stacked(es, w) {
        lemma_mapped(es, w, loc_of(es, w));
        let l = level(es, w);
        let r = relocated(es, w, loc);
        assert(forall|i: int| 0 <= i < es.len() ==> (#[trigger] r[i]).window == es[i].window);
        assert forall|v: u64| #[trigger] stacked(r, v) <==> stacked(es, v) by {
            if stacked(r, v) {
                let i = level(r, v);
                assert(es[i].window == v);
            }
            if stacked(es, v) {
                let i = level(es, v);
                assert(r[i].window == v);
            }
        }
        assert(windows_of(r) =~= windows_of(es));
    }
}

proof fn lemma_unmapped(es: Seq<Element>, w: u64)
    requires
        distinct(es),
    ensures
        distinct(unmapped(es, w)),
        forall|v: u64| #[trigger] stacked(unmapped(es, w), v) <==> stacked(es, v) && v != w,
{
    let u = unmapped(es, w);
    if stacked(es, w) {
        let l = level(es, w);
        assert(forall|i: int| 0 <= i < u.len() ==> #[trigger] u[i] == es[if i < l { i } else { i + 1 }]);
        assert forall|v: u64| #[trigger] stacked(u, v) <==> stacked(es, v) && v != w by {
            if stacked(u, v) {
                let i = level(u, v);
                let k = if i < l { i } else { i + 1 };
                assert(es[k].window == v);
                assert(v != w);
            }
            if stacked(es, v) && v != w {
                let k = level(es, v);
                let i = if k < l { k } else { k - 1 };
                assert(u[i].window == v);
            }
        }
    }
}

proof fn lemma_mapped(es: Seq<Element>, w: u64, loc: Point)
    requires
        distinct(es),
    ensures
        distinct(mapped(es, w, loc)),
        forall|v: u64| #[trigger] stacked(mapped(es, w, loc), v) <==> stacked(es, v) || v == w,
{
    lemma_unmapped(es, w);
    let u = unmapped(es, w);
    let m = mapped(es, w, loc);
    assert(forall|i: int| 0 <= i < u.len() ==> #[trigger] m[i] == u[i]);
    assert forall|i: int| 0 <= i < u.len() implies (#[trigger] m[i]).window != w by {
        assert(stacked(u, u[i].window));
    }
    assert forall|v: u64| #[trigger] stacked(m, v) <==> stacked(es, v) || v == w by {
        if stacked(m, v) {
            let i = level(m, v);
            if i < u.len() {
                assert(stacked(u, u[i].window));
            }
        }
        if v == w {
            assert(m[m.len() - 1].window == w);
        } else if stacked(es, v) {
            assert(stacked(u, v));
            let i = level(u, v);
            assert(m[i].window == v);
        }
    }
}

/// Putting one window below another keeps the stack free of repetition and adds no other window; the
/// first one ends directly below the second, and the rest of the stack is as without it.
pub proof fn lemma_mapped_below(es: Seq<Element>, w: u64, loc: Point, reference: u64)
    requires
        distinct(es),
    ensures
        distinct(mapped_below(es, w, loc, reference)),
        forall|v: u64|
            #[trigger] stacked(mapped_below(es, w, loc, reference), v) <==> stacked(es, v) || v
                == w,
        unmapped(mapped_below(es, w, loc, reference), w) == unmapped(es, w),
        stacked(es, reference) && reference != w ==> level(
            mapped_below(es, w, loc, reference),
            w,
        ) + 1 == level(mapped_below(es, w, loc, reference), reference),
{
    lemma_unmapped(es, w);
    lemma_mapped(es, w, loc);
    let u = unmapped(es, w);
    let m = mapped_below(es, w, loc, reference);
    let k = if stacked(u, reference) {
        level(u, reference)
    } else {
        u.len() as int
    };
    assert(m =~= u.insert(k, Element { window: w, loc }));
    assert forall|i: int| 0 <= i < u.len() implies (#[trigger] u[i]).window != w by {
        assert(stacked(u, u[i].window));
    }
    assert forall|i: int| 0 <= i < m.len() implies #[trigger] m[i] == if i < k {
        u[i]
    } else if i == k {
        Element { window: w, loc }
    } else {
        u[i - 1]
    } by {}
    assert(distinct(m));
    assert forall|v: u64| #[trigger] stacked(m, v) <==> stacked(es, v) || v == w by {
        if stacked(m, v) && v != w {
            let i = level(m, v);
            let j = if i < k {
                i
            } else {
                i - 1
            };
            assert(u[j].window == v);
            assert(stacked(u, v));
        }
        if v == w {
            assert(m[k].window == w);
        } else if stacked(es, v) {
            assert(stacked(u, v));
            let j = level(u, v);
            let i = if j < k {
                j
            } else {
                j + 1
            };
            assert(m[i].window == v);
        }
    }
    lemma_level(m, k);
    assert(m.remove(k) =~= u);
    if stacked(es, reference) && reference != w {
        assert(stacked(u, reference));
        lemma_level(m, k + 1);
    }
}

/// Raising one window above another keeps the stack free of repetition and the windows in it, and
/// leaves the first one above the second.
pub proof fn lemma_raised_above(es: Seq<Element>, w: u64, reference: u64)
    requires
        distinct(es),
    ensures
        distinct(raised_above(es, w, reference)),
        forall|v: u64| #[trigger] stacked(raised_above(es, w, reference), v) <==> stacked(es, v),
        stacked(es, w) && stacked(es, reference) && w != reference ==> level(
            raised_above(es, w, reference),
            reference,
        ) < level(raised_above(es, w, reference), w),
        forall|v: u64|
            stacked(es, v) ==> #[trigger] loc_of(raised_above(es, w, reference), v) == loc_of(es, v),
{
    let r = raised_above(es, w, reference);
    if stacked(es, w) && stacked(es, reference) && level(es, w) < level(es, reference) {
        let a = level(es, w);
        let b = level(es, reference);
        assert forall|i: int| 0 <= i < r.len() implies #[trigger] r[i] == es[if i < a || i > b {
            i
        } else if i == b {
            a
        } else {
            i + 1
        }] by {}
        assert(distinct(r));
        assert forall|v: u64| #[trigger] stacked(r, v) <==> stacked(es, v) by {
            if stacked(r, v) {
                let i = level(r, v);
                let k = if i < a || i > b {
                    i
                } else if i == b {
                    a
                } else {
                    i + 1
                };
                assert(es[k].window == v);
            }
            if stacked(es, v) {
                let k = level(es, v);
                let i = if k < a || k > b {
                    k
                } else if k == a {
                    b
                } else {
                    k - 1
                };
                assert(r[i].window == v);
            }
        }
        assert forall|v: u64| stacked(es, v) implies #[trigger] loc_of(r, v) == loc_of(es, v) by {
            let k = level(es, v);
            let i = if k < a || k > b {
                k
            } else if k == a {
                b
            } else {
                k - 1
            };
            assert(r[i] == es[k]);
            lemma_level(r, i);
        }
        lemma_level(r, b);
        lemma_level(r, b - 1);
    } else if stacked(es, w) && stacked(es, reference) && w != reference {
        assert(es[level(es, w)].window == w);
        assert(es[level(es, reference)].window == reference);
    }
}

impl Space {
    /// An empty plane.
    pub fn new() -> (r: Self)
        ensures
            r.outputs@ == Seq::<Output>::empty(),
            r.elements@ == Seq::<Element>::empty(),
    {
        Space { outputs: Vec::new(), elements: Vec::new() }
    }

    /// The position of `w` in the stack, if it is stacked.
    pub fn position(&self, w: u64) -> (r: Option<usize>)
        requires
            distinct(self.elements@),
        ensures
            r is Some <==> stacked(self.elements@, w),
            r matches Some(i) ==> i == level(self.elements@, w) && i < self.elements@.len()
                && self.elements@[i as int].window == w,
    {
        let mut i: usize = 0;
        while i < self.elements.len()
            invariant
                i <= self.elements@.len(),
                distinct(self.elements@),
                forall|j: int| 0 <= j < i ==> (#[trigger] self.elements@[j]).window != w,
            decreases self.elements@.len() - i,
        {
            if self.elements[i].window == w {
                proof {
                    lemma_level(self.elements@, i as int);
                }
                return Some(i);
            }
            i = i + 1;
        }
        None
    }

    /// Whether `w` is stacked.
    pub fn contains(&self, w: u64) -> (r: bool)
        requires
            distinct(self.elements@),
        ensures
            r == stacked(self.elements@, w),
    {
        self.position(w).is_some()
    }

    /// Puts `w` on top of the stack, at `loc`.
    pub fn map_element(&mut self, w: u64, loc: Point)
        requires
            distinct(old(self).elements@),
        ensures
            final(self).outputs == old(self).outputs,
            final(self).elements@ == mapped(old(self).elements@, w, loc),
    {
        self.unmap_elem(w);
        self.elements.push(Element { window: w, loc });
    }

    /// Puts `w` directly below `reference`, at `loc`; on top when `reference` is not stacked.
    pub fn map_element_below(&mut self, w: u64, loc: Point, reference: u64)
        requires
            distinct(old(self).elements@),
        ensures
            final(self).outputs == old(self).outputs,
            final(self).elements@ == mapped_below(old(self).elements@, w, loc, reference),
    {
        proof {
            lemma_unmapped(self.elements@, w);
        }
        self.unmap_elem(w);
        match self.position(reference) {
            Some(i) => {
                self.elements.insert(i, Element { window: w, loc });
            },
            None => {
                self.elements.push(Element { window: w, loc });
            },
        }
    }

    /// Takes `w` out of the stack.
    pub fn unmap_elem(&mut self, w: u64)
        requires
            distinct(old(self).elements@),
        ensures
            final(self).outputs == old(self).outputs,
            final(self).elements@ == unmapped(old(self).elements@, w),
    {
        match self.position(w) {
            Some(i) => {
                self.elements.remove(i);
            },
            None => {},
        }
    }

    /// Moves `w` to the top of the stack, if it is stacked.
    pub fn raise_element(&mut self, w: u64)
        requires
            distinct(old(self).elements@),
        ensures
            final(self).outputs == old(self).outputs,
            final(self).elements@ == raised(old(self).elements@, w),
    {
        match self.position(w) {
            Some(i) => {
                let e = self.elements.remove(i);
                self.elements.push(e);
            },
            None => {},
        }
    }

    /// Moves `w` to `loc` without changing the stacking order, if it is stacked.
    pub fn relocate_element(&mut self, w: u64, loc: Point)
        requires
            distinct(old(self).elements@),
        ensures
            final(self).outputs == old(self).outputs,
            final(self).elements@ == relocated(old(self).elements@, w, loc),
    {
        match self.position(w) {
            Some(i) => {
                self.elements.set(i, Element { window: w, loc });
            },
            None => {},
        }
    }

    /// Moves `w` directly above `reference` when it is below it, if both are stacked.
    pub fn raise_element_above(&mut self, w: u64, reference: u64)
        requires
            distinct(old(self).elements@),
        ensures
            final(self).outputs == old(self).outputs,
            final(self).elements@ == raised_above(old(self).elements@, w, reference),
    {
        match (self.position(w), self.position(reference)) {
            (Some(i), Some(j)) => {
                if i < j {
                    let e = self.elements.remove(i);
                    self.elements.insert(j, e);
                }
            },
            _ => {},
        }
    }
}

} // verus!
