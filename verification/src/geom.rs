//! Fixed-point planar coordinates and axis-aligned rectangles.

use vstd::prelude::*;

verus! {

/// A coordinate in decimicro-degrees (1e-7 of a degree): `x` is longitude,
/// `y` is latitude. Using the input format's native fixed-point integers
/// keeps the containment test exact.
#[derive(Clone, Copy, Debug, PartialEq, Eq, Structural)]
pub struct Coord {
    pub x: i64,
    pub y: i64,
}

/// An axis-aligned rectangle given by its two corner coordinates,
/// `min` componentwise at most `max`.
#[derive(Clone, Copy, Debug, PartialEq, Eq, Structural)]
pub struct Rect {
    pub min: Coord,
    pub max: Coord,
}

/// Containment of a coordinate in a rectangle, boundary inclusive.
pub open spec fn rect_contains(r: Rect, c: Coord) -> bool {
    &&& r.min.x <= c.x <= r.max.x
    &&& r.min.y <= c.y <= r.max.y
}

impl Rect {
    /// Builds the rectangle spanned by two arbitrary corner coordinates,
    /// normalising so that `min` is the componentwise minimum.
    pub fn new(a: Coord, b: Coord) -> (r: Rect)
        ensures
            r.min.x == if a.x <= b.x { a.x } else { b.x },
            r.max.x == if a.x <= b.x { b.x } else { a.x },
            r.min.y == if a.y <= b.y { a.y } else { b.y },
            r.max.y == if a.y <= b.y { b.y } else { a.y },
            r.min.x <= r.max.x && r.min.y <= r.max.y,
    {
        let min_x: i64 = if a.x <= b.x { a.x } else { b.x };
        let max_x: i64 = if a.x <= b.x { b.x } else { a.x };
        let min_y: i64 = if a.y <= b.y { a.y } else { b.y };
        let max_y: i64 = if a.y <= b.y { b.y } else { a.y };
        Rect { min: Coord { x: min_x, y: min_y }, max: Coord { x: max_x, y: max_y } }
    }

    /// Boundary-inclusive containment test.
    pub fn contains(&self, c: &Coord) -> (r: bool)
        ensures
            r == rect_contains(*self, *c),
    {
        self.min.x <= c.x && c.x <= self.max.x && self.min.y <= c.y && c.y <= self.max.y
    }
}

} // verus!
