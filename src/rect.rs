//! Axis-aligned rectangles used by the room builders.
use vstd::prelude::*;

verus! {

/// A rectangle spanning columns `x1..=x2` and rows `y1..=y2`.
#[derive(PartialEq, Eq, Structural, Copy, Clone, Debug)]
pub struct Rect {
    pub x1: i32,
    pub x2: i32,
    pub y1: i32,
    pub y2: i32,
}

/// The closed spans `[a1, a2]` and `[b1, b2]` share a point.
pub open spec fn spans_overlap(a1: int, a2: int, b1: int, b2: int) -> bool {
    a1 <= b2 && a2 >= b1
}

impl Rect {
    /// A rectangle with top-left corner `(x, y)`, `w` columns and `h` rows beyond it.
    pub fn new(x: i32, y: i32, w: i32, h: i32) -> (r: Rect)
        requires
            i32::MIN <= x + w <= i32::MAX,
            i32::MIN <= y + h <= i32::MAX,
        ensures
            r.x1 == x,
            r.y1 == y,
            r.x2 == x + w,
            r.y2 == y + h,
    {
        Rect { x1: x, y1: y, x2: x + w, y2: y + h }
    }

    /// Two rectangles intersect when their closed spans overlap on both axes.
    pub open spec fn spec_intersect(&self, other: &Rect) -> bool {
        spans_overlap(self.x1 as int, self.x2 as int, other.x1 as int, other.x2 as int)
            && spans_overlap(self.y1 as int, self.y2 as int, other.y1 as int, other.y2 as int)
    }

    /// Whether this rectangle and `other` overlap.
    pub fn intersect(&self, other: &Rect) -> (r: bool)
        ensures
            r == self.spec_intersect(other),
    {
        self.x1 <= other.x2 && self.x2 >= other.x1 && self.y1 <= other.y2 && self.y2 >= other.y1
    }

    /// The midpoint, rounded toward zero on each axis.
    pub open spec fn spec_center(&self) -> (int, int) {
        ((self.x1 as int + self.x2 as int) / 2, (self.y1 as int + self.y2 as int) / 2)
    }

    /// The integer midpoint of the rectangle.
    pub fn center(&self) -> (r: (i32, i32))
        requires
            0 <= self.x1 <= self.x2 <= 10000,
            0 <= self.y1 <= self.y2 <= 10000,
        ensures
            r.0 as int == self.spec_center().0,
            r.1 as int == self.spec_center().1,
            self.x1 <= r.0 <= self.x2,
            self.y1 <= r.1 <= self.y2,
    {
        ((self.x1 + self.x2) / 2, (self.y1 + self.y2) / 2)
    }
}

} // verus!
