use vstd::prelude::*;

verus! {

/// An axis-aligned rectangle characterising a room, with `x2 == x1 + w`
/// and `y2 == y1 + h`.
#[derive(Clone, Copy, Debug, PartialEq, Eq, Structural)]
pub struct Rect {
    pub x1: i32,
    pub y1: i32,
    pub x2: i32,
    pub y2: i32,
}

impl Rect {
    /// The midpoint of the rectangle, rounded down on both axes.
    pub open spec fn spec_center(self) -> (int, int) {
        ((self.x1 + self.x2) / 2, (self.y1 + self.y2) / 2)
    }

    /// The room-overlap test used by the placement engine. It is
    /// deliberately asymmetric between the axes: `<=`/`>` on x and
    /// `<=`/`>=` on y.
    pub open spec fn spec_overlaps(self, other: Rect) -> bool {
        &&& self.x1 <= other.x2
        &&& self.x2 > other.x1
        &&& self.y1 <= other.y2
        &&& self.y2 >= other.y1
    }

    /// True of the coordinates strictly inside the rectangle; only these
    /// tiles are carved when the room is painted onto a grid.
    pub open spec fn spec_interior(self, x: int, y: int) -> bool {
        self.x1 < x < self.x2 && self.y1 < y < self.y2
    }

    pub fn new(x: i32, y: i32, w: i32, h: i32) -> (r: Rect)
        requires
            0 <= w,
            0 <= h,
            x + w <= i32::MAX,
            y + h <= i32::MAX,
        ensures
            r.x1 == x,
            r.y1 == y,
            r.x2 == x + w,
            r.y2 == y + h,
    {
        Rect { x1: x, y1: y, x2: x + w, y2: y + h }
    }

    pub fn center(&self) -> (c: (i32, i32))
        requires
            0 <= self.x1 + self.x2,
            0 <= self.y1 + self.y2,
        ensures
            c.0 == self.spec_center().0,
            c.1 == self.spec_center().1,
    {
        let cx: i64 = (self.x1 as i64 + self.x2 as i64) / 2;
        let cy: i64 = (self.y1 as i64 + self.y2 as i64) / 2;
        (cx as i32, cy as i32)
    }

    pub fn intersects_with(&self, other: &Rect) -> (r: bool)
        ensures
            r == self.spec_overlaps(*other),
    {
        (self.x1 <= other.x2)
            && (self.x2 > other.x1)
            && (self.y1 <= other.y2)
            && (self.y2 >= other.y1)
    }
}

} // verus!
