//! Stored vector paths: one or more runs of anchors, open or closed.
//!
//! What the coordinates are is the caller's; which anchor neighbours
//! which, which is nearest and what the whole covers is decided here.

use crate::geom::{law_union_is_the_hull, IntRect};
use vstd::prelude::*;

verus! {

/// One point on a path, with its two Bezier handles stored as offsets from
/// the point itself, so moving the anchor moves its handles with it.
#[derive(Debug, PartialEq)]
pub struct Anchor<T> {
    pub point: (T, T),
    /// Control handle for the segment arriving at this anchor.
    pub handle_in: (T, T),
    /// Control handle for the segment leaving it.
    pub handle_out: (T, T),
}

/// One run of anchors.
#[derive(Debug, PartialEq)]
pub struct SubPath<T> {
    pub anchors: Vec<Anchor<T>>,
    pub closed: bool,
}

/// A named path.
#[derive(Debug, PartialEq)]
pub struct VectorPath<T> {
    pub name: String,
    pub subpaths: Vec<SubPath<T>>,
}

impl<T: Copy> Copy for Anchor<T> {

}

impl<T: Copy> Clone for Anchor<T> {
    fn clone(&self) -> (anchor: Anchor<T>)
        ensures
            anchor == *self,
    {
        *self
    }
}

impl<T: Copy> Clone for SubPath<T> {
    fn clone(&self) -> (run: SubPath<T>)
        ensures
            run.anchors@ == self.anchors@,
            run.closed == self.closed,
    {
        let mut anchors: Vec<Anchor<T>> = Vec::new();
        let mut i: usize = 0;
        while i < self.anchors.len()
            invariant
                i <= self.anchors@.len(),
                anchors@ == self.anchors@.take(i as int),
            decreases self.anchors@.len() - i,
        {
            anchors.push(self.anchors[i]);
            i = i + 1;
            assert(anchors@ =~= self.anchors@.take(i as int));
        }
        assert(anchors@ =~= self.anchors@);
        SubPath { anchors, closed: self.closed }
    }
}

impl<T: Copy> Clone for VectorPath<T> {
    fn clone(&self) -> (path: VectorPath<T>)
        ensures
            path.name@ == self.name@,
            path.subpaths@.len() == self.subpaths@.len(),
            forall|i: int|
                0 <= i < path.subpaths@.len() ==> (#[trigger] path.subpaths@[i]).anchors@
                    == self.subpaths@[i].anchors@ && path.subpaths@[i].closed
                    == self.subpaths@[i].closed,
    {
        let mut subpaths: Vec<SubPath<T>> = Vec::new();
        let mut i: usize = 0;
        while i < self.subpaths.len()
            invariant
                i <= self.subpaths@.len(),
                subpaths@.len() == i,
                forall|k: int|
                    0 <= k < i ==> (#[trigger] subpaths@[k]).anchors@ == self.subpaths@[k].anchors@
                        && subpaths@[k].closed == self.subpaths@[k].closed,
            decreases self.subpaths@.len() - i,
        {
            subpaths.push(self.subpaths[i].clone());
            i = i + 1;
        }
        VectorPath { name: self.name.clone(), subpaths }
    }
}

/// The places of the anchors of one run: the run's number and each
/// anchor's in it.
pub open spec fn run_places(run: int, n: int) -> Seq<(int, int)> {
    Seq::new(n as nat, |a: int| (run, a))
}

/// The places of the anchors of the first `n` runs, in order.
pub open spec fn places<T>(subpaths: Seq<SubPath<T>>, n: int) -> Seq<(int, int)>
    decreases n,
{
    if n <= 0 {
        Seq::empty()
    } else {
        places(subpaths, n - 1) + run_places(n - 1, subpaths[n - 1].anchors@.len() as int)
    }
}

/// Places without their machine types.
pub open spec fn wide_places(places: Seq<(usize, usize)>) -> Seq<(int, int)> {
    places.map_values(|p: (usize, usize)| (p.0 as int, p.1 as int))
}

impl<T> VectorPath<T> {
    /// A path with no anchors.
    pub fn new(name: String) -> (path: VectorPath<T>)
        ensures
            path.name@ == name@,
            path.subpaths@ == Seq::<SubPath<T>>::empty(),
    {
        VectorPath { name, subpaths: Vec::new() }
    }

    /// Whether the path has no anchor at all.
    pub fn is_empty(&self) -> (r: bool)
        ensures
            r <==> forall|s: int|
                0 <= s < self.subpaths@.len() ==> (#[trigger] self.subpaths@[s]).anchors@.len()
                    == 0,
    {
        let mut s: usize = 0;
        while s < self.subpaths.len()
            invariant
                s <= self.subpaths@.len(),
                forall|k: int|
                    0 <= k < s ==> (#[trigger] self.subpaths@[k]).anchors@.len() == 0,
            decreases self.subpaths@.len() - s,
        {
            if self.subpaths[s].anchors.len() != 0 {
                assert(self.subpaths@[s as int].anchors@.len() != 0);
                return false;
            }
            s = s + 1;
        }
        true
    }

    /// Every anchor's place: its run's number and its number in the run.
    pub fn anchors(&self) -> (out: Vec<(usize, usize)>)
        ensures
            wide_places(out@) == places(self.subpaths@, self.subpaths@.len() as int),
    {
        let mut out: Vec<(usize, usize)> = Vec::new();
        let mut s: usize = 0;
        assert(wide_places(out@) =~= Seq::empty());
        while s < self.subpaths.len()
            invariant
                s <= self.subpaths@.len(),
                wide_places(out@) == places(self.subpaths@, s as int),
            decreases self.subpaths@.len() - s,
        {
            let n: usize = self.subpaths[s].anchors.len();
            let ghost before = places(self.subpaths@, s as int);
            let mut a: usize = 0;
            assert(wide_places(out@) =~= before + run_places(s as int, 0));
            while a < n
                invariant
                    a <= n,
                    wide_places(out@) == before + run_places(s as int, a as int),
                decreases n - a,
            {
                let ghost was = out@;
                out.push((s, a));
                a = a + 1;
                assert(wide_places(out@) =~= wide_places(was).push((s as int, a - 1)));
                assert(run_places(s as int, a as int) =~= run_places(s as int, a - 1).push(
                    (s as int, a - 1),
                ));
            }
            s = s + 1;
        }
        out
    }
}

/// The anchors before and after one of a run of `n`: round the corner in a
/// closed run, and the end itself in an open one.
pub open spec fn beside(n: int, closed: bool, i: int) -> (int, int) {
    (
        if i == 0 {
            if closed {
                n - 1
            } else {
                0
            }
        } else {
            i - 1
        },
        if i + 1 == n {
            if closed {
                0
            } else {
                n - 1
            }
        } else {
            i + 1
        },
    )
}

/// The anchors that a smooth curve through anchor `i` is drawn by: the one
/// before it and the one after.
pub fn neighbours(n: usize, closed: bool, i: usize) -> (r: (usize, usize))
    requires
        i < n,
    ensures
        (r.0 as int, r.1 as int) == beside(n as int, closed, i as int),
        r.0 < n,
        r.1 < n,
{
    let before: usize = if i == 0 {
        if closed {
            n - 1
        } else {
            0
        }
    } else {
        i - 1
    };
    let after: usize = if i == n - 1 {
        if closed {
            0
        } else {
            n - 1
        }
    } else {
        i + 1
    };
    (before, after)
}

/// In a closed run an anchor is the one after the one before it, and the
/// one before the one after it.
pub proof fn law_closed_runs_have_no_end(n: int, i: int)
    requires
        0 <= i < n,
    ensures
        beside(n, true, beside(n, true, i).0).1 == i,
        beside(n, true, beside(n, true, i).1).0 == i,
{
}

/// The nearest of some distances that is within a radius, the first of
/// equals. Distances are given by the bits of non-negative
/// single-precision numbers, whose order is that of the numbers.
pub fn nearest(distances: &[u32], radius: u32) -> (r: Option<usize>)
    ensures
        match r {
            Some(i) => {
                &&& i < distances@.len()
                &&& distances@[i as int] <= radius
                &&& forall|k: int|
                    0 <= k < distances@.len() ==> distances@[i as int] <= #[trigger] distances@[k]
                &&& forall|k: int|
                    0 <= k < i ==> distances@[i as int] < #[trigger] distances@[k]
            },
            None => forall|k: int|
                0 <= k < distances@.len() ==> #[trigger] distances@[k] > radius,
        },
{
    let mut best: Option<usize> = None;
    let mut k: usize = 0;
    while k < distances.len()
        invariant
            k <= distances@.len(),
            match best {
                Some(i) => {
                    &&& i < k
                    &&& distances@[i as int] <= radius
                    &&& forall|j: int|
                        0 <= j < k ==> distances@[i as int] <= #[trigger] distances@[j]
                    &&& forall|j: int|
                        0 <= j < i ==> distances@[i as int] < #[trigger] distances@[j]
                },
                None => forall|j: int| 0 <= j < k ==> #[trigger] distances@[j] > radius,
            },
        decreases distances@.len() - k,
    {
        let closer: bool = match best {
            Some(i) => distances[k] < distances[i],
            None => distances[k] <= radius,
        };
        if closer {
            best = Some(k);
        }
        k = k + 1;
    }
    best
}

/// The smallest rectangle around the first `n` of some.
pub open spec fn around(boxes: Seq<IntRect>, n: int) -> IntRect
    decreases n,
{
    if n <= 0 {
        IntRect::nowhere()
    } else {
        around(boxes, n - 1).hull(boxes[n - 1])
    }
}

/// The rectangle around the rectangles of a path's anchors.
pub fn bounds(boxes: &[IntRect]) -> (r: IntRect)
    ensures
        r == around(boxes@, boxes@.len() as int),
{
    let mut out = IntRect::nowhere();
    let mut i: usize = 0;
    while i < boxes.len()
        invariant
            i <= boxes@.len(),
            out == around(boxes@, i as int),
        decreases boxes@.len() - i,
    {
        out = out.union(&boxes[i]);
        i = i + 1;
    }
    out
}

/// The bounds hold every pixel of every rectangle.
pub proof fn law_bounds_hold_everything(boxes: Seq<IntRect>, n: int, k: int, x: int, y: int)
    requires
        0 <= k < n <= boxes.len(),
        boxes[k].holds(x, y),
    ensures
        around(boxes, n).holds(x, y),
    decreases n,
{
    if k < n - 1 {
        law_bounds_hold_everything(boxes, n - 1, k, x, y);
    }
}

/// The bounds hold no more than any rectangle that holds all of the
/// rectangles.
pub proof fn law_bounds_are_the_smallest(
    boxes: Seq<IntRect>,
    n: int,
    outer: IntRect,
    x: int,
    y: int,
)
    requires
        0 <= n <= boxes.len(),
        forall|k: int, p: int, q: int|
            0 <= k < n && #[trigger] boxes[k].holds(p, q) ==> outer.holds(p, q),
        around(boxes, n).holds(x, y),
    ensures
        outer.holds(x, y),
    decreases n,
{
    if n > 0 {
        let before = around(boxes, n - 1);
        assert forall|p: int, q: int|
            #![trigger outer.holds(p, q)]
            before.holds(p, q) || boxes[n - 1].holds(p, q) implies outer.holds(p, q) by {
            if before.holds(p, q) {
                law_bounds_are_the_smallest(boxes, n - 1, outer, p, q);
            }
        }
        law_union_is_the_hull(before, boxes[n - 1], outer, x, y);
    }
}

/// The anchors before and after one are one step away; a closed run goes
/// on at its other end, and in an open one an end is its own neighbour.
pub proof fn law_neighbours_are_one_step_away(n: int, closed: bool, i: int)
    requires
        0 <= i < n,
    ensures
        ({
            let (before, after) = beside(n, closed, i);
            &&& closed ==> before == (i - 1) % n && after == (i + 1) % n
            &&& !closed && i > 0 ==> before == i - 1
            &&& !closed && i < n - 1 ==> after == i + 1
            &&& !closed && i == 0 ==> before == i
            &&& !closed && i == n - 1 ==> after == i
        }),
{
    if closed {
        if i > 0 {
            vstd::arithmetic::div_mod::lemma_small_mod((i - 1) as nat, n as nat);
        } else {
            vstd::arithmetic::div_mod::lemma_mod_add_multiples_vanish(-1, n);
            vstd::arithmetic::div_mod::lemma_small_mod((n - 1) as nat, n as nat);
        }
        if i + 1 < n {
            vstd::arithmetic::div_mod::lemma_small_mod((i + 1) as nat, n as nat);
        } else {
            vstd::arithmetic::div_mod::lemma_mod_self_0(n);
        }
    }
}

/// The places of a path's anchors are all there, once each and in order:
/// run by run, and in a run from its first anchor on.
pub proof fn law_places_are_listed_in_order<T>(subpaths: Seq<SubPath<T>>, n: int, i: int, j: int)
    requires
        0 <= n <= subpaths.len(),
    ensures
        ({
            let all = places(subpaths, n);
            &&& forall|s: int, a: int|
                #[trigger] all.contains((s, a)) <==> 0 <= s < n && 0 <= a
                    < subpaths[s].anchors@.len()
            &&& 0 <= i < j < all.len() ==> all[i].0 < all[j].0 || all[i].0 == all[j].0 && all[i].1
                < all[j].1
        }),
    decreases n,
{
    let all = places(subpaths, n);
    if n > 0 {
        let before = places(subpaths, n - 1);
        let m = subpaths[n - 1].anchors@.len() as int;
        let run = run_places(n - 1, m);
        law_places_are_listed_in_order(subpaths, n - 1, i, j);
        assert forall|s: int, a: int| #[trigger] all.contains((s, a)) implies 0 <= s < n && 0 <= a
            < subpaths[s].anchors@.len() by {
            let k = all.index_of((s, a));
            if k < before.len() {
                assert(before[k] == (s, a));
                assert(before.contains((s, a)));
            }
        }
        assert forall|s: int, a: int|
            0 <= s < n && 0 <= a < subpaths[s].anchors@.len() implies #[trigger] all.contains(
            (s, a),
        ) by {
            if s < n - 1 {
                assert(before.contains((s, a)));
                let k = before.index_of((s, a));
                assert(all[k] == (s, a));
            } else {
                assert(all[before.len() + a] == (s, a));
            }
        }
        if 0 <= i < before.len() {
            assert(before.contains(before[i]));
            assert(before.contains((before[i].0, before[i].1)));
        }
    }
}

} // verus!
