//! Points and axis-aligned rectangles with half-open containment.
//!
//! Coordinates are fixed-point integers: [`UNIT`] stands for a coordinate
//! value of one, so the root region of a tree, `[-UNIT, UNIT)` on each
//! axis, covers the square from minus one up to (but excluding) one.

use vstd::prelude::*;

verus! {

/// One coordinate unit: the fixed-point representation of the value one.
pub const UNIT: i64 = 0x8000_0000;

/// A point of the plane: a position and a velocity payload.
///
/// The velocity starts at zero and is carried along unchanged; it is
/// reserved for force-simulation extensions and never read by the tree.
#[derive(Clone, Copy, PartialEq, Eq, Structural, Debug)]
pub struct Point {
    pub x: i64,
    pub y: i64,
    pub vx: i64,
    pub vy: i64,
}

impl Point {
    /// A point at the given position with zero velocity.
    pub fn new(x: i64, y: i64) -> (p: Point)
        ensures
            p == (Point { x, y, vx: 0, vy: 0 }),
    {
        Point { x, y, vx: 0, vy: 0 }
    }
}

/// An axis-aligned region: origin `(x, y)` and extents `(w, h)`.
///
/// The region is half-open: it contains the positions `(px, py)` with
/// `x <= px < x + w` and `y <= py < y + h`. Nothing here checks that the
/// extents are non-negative; a region with a non-positive extent simply
/// contains no position at all.
#[derive(Clone, Copy, PartialEq, Eq, Structural, Debug)]
pub struct Rectangle {
    pub x: i64,
    pub y: i64,
    pub w: i64,
    pub h: i64,
}

impl Rectangle {
    /// Half-open containment of a position, as a mathematical predicate.
    pub open spec fn spec_contains(self, px: int, py: int) -> bool {
        &&& self.x <= px < self.x + self.w
        &&& self.y <= py < self.y + self.h
    }

    /// The extents are non-negative and the far corner is representable.
    pub open spec fn wf(self) -> bool {
        &&& 0 <= self.w
        &&& 0 <= self.h
        &&& self.x + self.w <= i64::MAX
        &&& self.y + self.h <= i64::MAX
    }

    pub fn new(x: i64, y: i64, w: i64, h: i64) -> (r: Rectangle)
        ensures
            r == (Rectangle { x, y, w, h }),
    {
        Rectangle { x, y, w, h }
    }

    /// Half-open containment test.
    pub fn contains(&self, p: Point) -> (b: bool)
        ensures
            b == self.spec_contains(p.x as int, p.y as int),
    {
        (self.x <= p.x) && ((p.x as i128) < (self.x as i128) + (self.w as i128))
            && (self.y <= p.y) && ((p.y as i128) < (self.y as i128) + (self.h as i128))
    }

    /// Both extents are even and large enough to halve, so the region can
    /// be subdivided into four exact quadrants.
    pub open spec fn splittable(self) -> bool {
        &&& self.w % 2 == 0
        &&& self.h % 2 == 0
        &&& 2 <= self.w
        &&& 2 <= self.h
    }
}

/// Quadrant `i` (0 <= i < 4) of a region: the four half-extent regions at
/// the four corners, in the order origin corner, right of it, above it,
/// and the far corner.
pub open spec fn quadrant(r: Rectangle, i: int) -> Rectangle {
    let hw = (r.w / 2) as i64;
    let hh = (r.h / 2) as i64;
    if i == 0 {
        Rectangle { x: r.x, y: r.y, w: hw, h: hh }
    } else if i == 1 {
        Rectangle { x: ((r.x as int) + hw) as i64, y: r.y, w: hw, h: hh }
    } else if i == 2 {
        Rectangle { x: r.x, y: ((r.y as int) + hh) as i64, w: hw, h: hh }
    } else {
        Rectangle { x: ((r.x as int) + hw) as i64, y: ((r.y as int) + hh) as i64, w: hw, h: hh }
    }
}

/// How many of the four quadrants of `r` contain the position `(px, py)`.
pub open spec fn quadrant_hits(r: Rectangle, px: int, py: int) -> int {
    (if quadrant(r, 0).spec_contains(px, py) { 1int } else { 0 })
        + (if quadrant(r, 1).spec_contains(px, py) { 1int } else { 0 })
        + (if quadrant(r, 2).spec_contains(px, py) { 1int } else { 0 })
        + (if quadrant(r, 3).spec_contains(px, py) { 1int } else { 0 })
}

/// Containment tiling: the four quadrants of a splittable region partition
/// it exactly. A position inside the region lies in exactly one quadrant
/// (no gap, no overlap at the shared edges), and a position outside it
/// lies in none.
pub proof fn lemma_quadrants_tile(r: Rectangle, px: int, py: int)
    requires
        r.wf(),
        r.splittable(),
    ensures
        quadrant_hits(r, px, py) == (if r.spec_contains(px, py) { 1int } else { 0 }),
{
    let hw = r.w as int / 2;
    let hh = r.h as int / 2;
    assert(hw + hw == r.w);
    assert(hh + hh == r.h);
}

} // verus!
