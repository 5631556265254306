//! Integer geometry in document pixel space.

use crate::bytes::signed32;
use vstd::prelude::*;

verus! {

/// Axis-aligned rectangle, half-open: contains x in [left, right) and
/// y in [top, bottom). Coordinates may be negative (layers can extend
/// beyond the canvas).
#[derive(Debug, Clone, Copy, PartialEq, Eq, Structural)]
pub struct IntRect {
    pub left: i32,
    pub top: i32,
    pub right: i32,
    pub bottom: i32,
}

fn as_signed(n: u32) -> (r: i32)
    ensures
        r == signed32(n as int),
{
    if n <= 0x7fff_ffff {
        n as i32
    } else {
        (n as i64 - 0x1_0000_0000) as i32
    }
}

/// The larger of two numbers.
pub open spec fn larger(a: i32, b: i32) -> i32 {
    if a >= b {
        a
    } else {
        b
    }
}

/// The smaller of two numbers.
pub open spec fn smaller(a: i32, b: i32) -> i32 {
    if a <= b {
        a
    } else {
        b
    }
}

fn max(a: i32, b: i32) -> (r: i32)
    ensures
        r == larger(a, b),
{
    if a >= b {
        a
    } else {
        b
    }
}

fn min(a: i32, b: i32) -> (r: i32)
    ensures
        r == smaller(a, b),
{
    if a <= b {
        a
    } else {
        b
    }
}

impl Default for IntRect {
    fn default() -> (r: Self)
        ensures
            r == IntRect::nowhere(),
    {
        IntRect::nowhere()
    }
}

impl IntRect {
    /// The rectangle that holds nothing.
    #[verifier::allow_in_spec]
    pub fn nowhere() -> IntRect
        returns
            (IntRect { left: 0, top: 0, right: 0, bottom: 0 }),
    {
        IntRect { left: 0, top: 0, right: 0, bottom: 0 }
    }

    /// Whether the rectangle holds no pixel.
    pub open spec fn empty(self) -> bool {
        self.right <= self.left || self.bottom <= self.top
    }

    /// Whether the rectangle holds the pixel.
    pub open spec fn holds(self, x: int, y: int) -> bool {
        self.left <= x < self.right && self.top <= y < self.bottom
    }

    /// The pixels two rectangles share.
    pub open spec fn overlap(self, other: IntRect) -> IntRect {
        let r = IntRect {
            left: larger(self.left, other.left),
            top: larger(self.top, other.top),
            right: smaller(self.right, other.right),
            bottom: smaller(self.bottom, other.bottom),
        };
        if r.empty() {
            IntRect::nowhere()
        } else {
            r
        }
    }

    /// The smallest rectangle around two.
    pub open spec fn hull(self, other: IntRect) -> IntRect {
        if self.empty() {
            other
        } else if other.empty() {
            self
        } else {
            IntRect {
                left: smaller(self.left, other.left),
                top: smaller(self.top, other.top),
                right: larger(self.right, other.right),
                bottom: larger(self.bottom, other.bottom),
            }
        }
    }

    /// Whether every corner can move by `(dx, dy)`.
    pub open spec fn can_move(self, dx: int, dy: int) -> bool {
        &&& i32::MIN <= self.left + dx <= i32::MAX
        &&& i32::MIN <= self.right + dx <= i32::MAX
        &&& i32::MIN <= self.top + dy <= i32::MAX
        &&& i32::MIN <= self.bottom + dy <= i32::MAX
    }

    /// Whether every side can move outwards by `d`.
    pub open spec fn can_grow(self, d: int) -> bool {
        &&& i32::MIN <= self.left - d <= i32::MAX
        &&& i32::MIN <= self.right + d <= i32::MAX
        &&& i32::MIN <= self.top - d <= i32::MAX
        &&& i32::MIN <= self.bottom + d <= i32::MAX
    }

    pub fn new(left: i32, top: i32, right: i32, bottom: i32) -> (r: Self)
        ensures
            r == (IntRect { left, top, right, bottom }),
    {
        IntRect { left, top, right, bottom }
    }

    /// The rectangle of a picture of this size. A side past `i32::MAX`
    /// wraps.
    pub fn from_size(width: u32, height: u32) -> (r: Self)
        ensures
            r.left == 0,
            r.top == 0,
            r.right == signed32(width as int),
            r.bottom == signed32(height as int),
    {
        IntRect { left: 0, top: 0, right: as_signed(width), bottom: as_signed(height) }
    }

    pub fn from_xywh(x: i32, y: i32, w: u32, h: u32) -> (r: Self)
        requires
            i32::MIN <= x + signed32(w as int) <= i32::MAX,
            i32::MIN <= y + signed32(h as int) <= i32::MAX,
        ensures
            r.left == x,
            r.top == y,
            r.right == x + signed32(w as int),
            r.bottom == y + signed32(h as int),
    {
        IntRect { left: x, top: y, right: x + as_signed(w), bottom: y + as_signed(h) }
    }

    pub fn width(&self) -> (r: i32)
        requires
            i32::MIN <= self.right - self.left <= i32::MAX,
        ensures
            r == if self.right > self.left {
                self.right - self.left
            } else {
                0
            },
    {
        max(self.right - self.left, 0)
    }

    pub fn height(&self) -> (r: i32)
        requires
            i32::MIN <= self.bottom - self.top <= i32::MAX,
        ensures
            r == if self.bottom > self.top {
                self.bottom - self.top
            } else {
                0
            },
    {
        max(self.bottom - self.top, 0)
    }

    pub fn is_empty(&self) -> (r: bool)
        ensures
            r == self.empty(),
            r <==> forall|x: int, y: int| !self.holds(x, y),
    {
        let r = self.right <= self.left || self.bottom <= self.top;
        assert(!r ==> self.holds(self.left as int, self.top as int));
        r
    }

    pub fn contains(&self, x: i32, y: i32) -> (r: bool)
        ensures
            r == self.holds(x as int, y as int),
    {
        x >= self.left && x < self.right && y >= self.top && y < self.bottom
    }

    pub fn intersect(&self, other: &IntRect) -> (r: IntRect)
        ensures
            r == self.overlap(*other),
            forall|x: int, y: int|
                #![trigger r.holds(x, y)]
                r.holds(x, y) <==> self.holds(x, y) && other.holds(x, y),
    {
        let r = IntRect {
            left: max(self.left, other.left),
            top: max(self.top, other.top),
            right: min(self.right, other.right),
            bottom: min(self.bottom, other.bottom),
        };
        if r.is_empty() {
            assert(forall|x: int, y: int| !r.holds(x, y));
            assert forall|x: int, y: int| !(self.holds(x, y) && other.holds(x, y)) by {
                assert(!r.holds(x, y));
            }
            IntRect::nowhere()
        } else {
            r
        }
    }

    pub fn union(&self, other: &IntRect) -> (r: IntRect)
        ensures
            r == self.hull(*other),
    {
        if self.is_empty() {
            return *other;
        }
        if other.is_empty() {
            return *self;
        }
        IntRect {
            left: min(self.left, other.left),
            top: min(self.top, other.top),
            right: max(self.right, other.right),
            bottom: max(self.bottom, other.bottom),
        }
    }

    pub fn translated(&self, dx: i32, dy: i32) -> (r: IntRect)
        requires
            self.can_move(dx as int, dy as int),
        ensures
            r.left == self.left + dx,
            r.top == self.top + dy,
            r.right == self.right + dx,
            r.bottom == self.bottom + dy,
            forall|x: int, y: int|
                #![trigger r.holds(x, y)]
                r.holds(x, y) <==> self.holds(x - dx, y - dy),
    {
        IntRect {
            left: self.left + dx,
            top: self.top + dy,
            right: self.right + dx,
            bottom: self.bottom + dy,
        }
    }

    pub fn inflated(&self, d: i32) -> (r: IntRect)
        requires
            self.can_grow(d as int),
        ensures
            r.left == self.left - d,
            r.top == self.top - d,
            r.right == self.right + d,
            r.bottom == self.bottom + d,
    {
        IntRect {
            left: self.left - d,
            top: self.top - d,
            right: self.right + d,
            bottom: self.bottom + d,
        }
    }
}

/// A pixel is in the intersection of two rectangles exactly when it is in
/// both.
pub proof fn law_intersect_holds(a: IntRect, b: IntRect, x: int, y: int)
    ensures
        a.overlap(b).holds(x, y) <==> a.holds(x, y) && b.holds(x, y),
{
}

/// Intersecting is symmetric and idempotent on rectangles that hold a
/// pixel; two rectangles with no pixel in common meet in the empty one.
pub proof fn law_intersect_is_symmetric(a: IntRect, b: IntRect)
    ensures
        a.overlap(b) == b.overlap(a),
        !a.empty() ==> a.overlap(a) == a,
        (forall|x: int, y: int| !(#[trigger] a.holds(x, y) && b.holds(x, y))) ==> a.overlap(b)
            == IntRect::nowhere(),
{
    let r = a.overlap(b);
    if forall|x: int, y: int| !(#[trigger] a.holds(x, y) && b.holds(x, y)) {
        if r != IntRect::nowhere() {
            assert(a.holds(r.left as int, r.top as int) && b.holds(r.left as int, r.top as int));
        }
    }
}

/// The union of two rectangles holds every pixel of either, an empty one
/// adds nothing, and no smaller rectangle would do.
pub proof fn law_union_is_the_hull(a: IntRect, b: IntRect, c: IntRect, x: int, y: int)
    requires
        forall|p: int, q: int|
            #![trigger c.holds(p, q)]
            a.holds(p, q) || b.holds(p, q) ==> c.holds(p, q),
    ensures
        a.holds(x, y) || b.holds(x, y) ==> a.hull(b).holds(x, y),
        a.hull(b).holds(x, y) ==> c.holds(x, y),
        a.empty() ==> a.hull(b) == b,
        b.empty() && !a.empty() ==> a.hull(b) == a,
{
    if a.hull(b).holds(x, y) {
        if a.empty() {
            assert(c.holds(x, y));
        } else if b.empty() {
            assert(c.holds(x, y));
        } else {
            assert(c.holds(a.left as int, a.top as int));
            assert(c.holds(a.right - 1, a.bottom - 1));
            assert(c.holds(b.left as int, b.top as int));
            assert(c.holds(b.right - 1, b.bottom - 1));
        }
    }
}

/// Moving a rectangle there and back changes nothing.
pub proof fn law_moves_undo(a: IntRect, b: IntRect, dx: int, dy: int)
    requires
        a.can_move(dx, dy),
        b.left == a.left + dx,
        b.top == a.top + dy,
        b.right == a.right + dx,
        b.bottom == a.bottom + dy,
    ensures
        b.can_move(-dx, -dy),
        a == (IntRect {
            left: (b.left - dx) as i32,
            top: (b.top - dy) as i32,
            right: (b.right - dx) as i32,
            bottom: (b.bottom - dy) as i32,
        }),
{
}

/// Growing a rectangle and shrinking it again changes nothing.
pub proof fn law_growth_undoes(a: IntRect, b: IntRect, d: int)
    requires
        a.can_grow(d),
        b.left == a.left - d,
        b.top == a.top - d,
        b.right == a.right + d,
        b.bottom == a.bottom + d,
    ensures
        b.can_grow(-d),
        a == (IntRect {
            left: (b.left + d) as i32,
            top: (b.top + d) as i32,
            right: (b.right - d) as i32,
            bottom: (b.bottom - d) as i32,
        }),
{
}

} // verus!
