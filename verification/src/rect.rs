//! Axis-aligned rectangles used to characterise rooms during generation.

use vstd::prelude::*;

verus! {

/// A rectangle on the map given by its two corners `(x1, y1)` and `(x2, y2)`.
#[derive(Clone, Copy, Debug, PartialEq, Eq, Structural)]
pub struct Rect {
    pub x1: i32,
    pub y1: i32,
    pub x2: i32,
    pub y2: i32,
}

impl Rect {
    /// Corners in the first quadrant and in order.
    pub open spec fn wf(self) -> bool {
        0 <= self.x1 <= self.x2 && 0 <= self.y1 <= self.y2
    }

    /// Closed-interval AABB overlap on the outer corners. Deliberately
    /// conservative: it also holds for merely adjacent rectangles, which
    /// leaves a guaranteed gap between accepted rooms.
    pub open spec fn overlaps(self, other: Rect) -> bool {
        self.x1 <= other.x2 && self.x2 >= other.x1 && self.y1 <= other.y2 && self.y2
            >= other.y1
    }

    /// The room's center, halving rounded down.
    pub open spec fn center_spec(self) -> (int, int) {
        ((self.x1 + self.x2) / 2, (self.y1 + self.y2) / 2)
    }

    pub fn new(x: i32, y: i32, w: i32, h: i32) -> (r: Rect)
        requires
            0 <= x,
            0 <= y,
            0 <= w,
            0 <= h,
            x + w <= i32::MAX,
            y + h <= i32::MAX,
        ensures
            r.x1 == x && r.y1 == y,
            r.x2 == x + w && r.y2 == y + h,
            r.wf(),
    {
        Rect { x1: x, y1: y, x2: x + w, y2: y + h }
    }

    pub fn center(&self) -> (c: (i32, i32))
        requires
            self.wf(),
            self.x1 + self.x2 <= i32::MAX,
            self.y1 + self.y2 <= i32::MAX,
        ensures
            (c.0 as int, c.1 as int) == self.center_spec(),
    {
        let center_x = (self.x1 + self.x2) / 2;
        let center_y = (self.y1 + self.y2) / 2;
        (center_x, center_y)
    }

    /// Returns true if this rectangle intersects with another one.
    pub fn intersects_with(&self, other: &Rect) -> (r: bool)
        ensures
            r == self.overlaps(*other),
    {
        (self.x1 <= other.x2) && (self.x2 >= other.x1) && (self.y1 <= other.y2) && (self.y2
            >= other.y1)
    }
}

} // verus!
