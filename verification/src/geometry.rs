//! Geometry primitives: points, axis-aligned rectangles, directions and
//! quadrants, with the half-open containment discipline every other
//! module builds on.

use vstd::prelude::*;

verus! {

/// A point in the plane, on an integer grid.
#[derive(Debug, Clone, Copy, PartialEq, Eq, Structural)]
pub struct Point {
    pub x: i64,
    pub y: i64,
}

/// An axis-aligned rectangle: origin (lower-left corner) plus extents.
/// It denotes the half-open region `[x, x+width) x [y, y+height)`.
#[derive(Debug, Clone, Copy, PartialEq, Eq, Structural)]
pub struct Rectangle {
    pub origin: Point,
    pub width: i64,
    pub height: i64,
}

/// A cardinal direction to search for face neighbors.
#[derive(Debug, Clone, Copy, PartialEq, Eq, Structural)]
pub enum Direction {
    North,
    East,
    South,
    West,
}

/// One of the four quadrants of a subdivided cell.
/// `Nw` is low-x/high-y, `Ne` high-x/high-y, `Sw` low-x/low-y,
/// `Se` high-x/low-y.
#[derive(Debug, Clone, Copy, PartialEq, Eq, Structural)]
pub enum Quadrant {
    Nw,
    Ne,
    Sw,
    Se,
}

/// All coordinates live in `[-COORD_LIMIT, COORD_LIMIT]`, so that sums
/// of a coordinate and an extent never overflow `i64`.
pub const COORD_LIMIT: i64 = 0x4000_0000_0000_0000;

/// A rectangle is well-formed when its extents are non-negative and the
/// region it denotes stays inside the coordinate range.
pub open spec fn rect_wf(r: Rectangle) -> bool {
    &&& 0 <= r.width <= COORD_LIMIT
    &&& 0 <= r.height <= COORD_LIMIT
    &&& -COORD_LIMIT <= r.origin.x
    &&& r.origin.x + r.width <= COORD_LIMIT
    &&& -COORD_LIMIT <= r.origin.y
    &&& r.origin.y + r.height <= COORD_LIMIT
}

/// The midpoint of the segment from `a` to `b`, for `a` at or below
/// `b` in both coordinates, rounding toward `a`.
pub open spec fn midpoint(a: Point, b: Point) -> Point {
    Point { x: (a.x + (b.x - a.x) / 2) as i64, y: (a.y + (b.y - a.y) / 2) as i64 }
}

/// Half-open containment: inclusive on the west and south edges,
/// exclusive on the east and north edges.
pub open spec fn spec_contains(r: Rectangle, p: Point) -> bool {
    &&& r.origin.x <= p.x < r.origin.x + r.width
    &&& r.origin.y <= p.y < r.origin.y + r.height
}

/// The center of a rectangle, rounding each half-extent down.
pub open spec fn spec_center(r: Rectangle) -> Point {
    Point { x: (r.origin.x + r.width / 2) as i64, y: (r.origin.y + r.height / 2) as i64 }
}

/// The boundary of one quadrant of `r`: the west/south quadrants take
/// the floored halves of the extents, the east/north quadrants the
/// remainders, so the four quadrants tile `r` exactly.
pub open spec fn quadrant_rect(r: Rectangle, q: Quadrant) -> Rectangle {
    let c = spec_center(r);
    match q {
        Quadrant::Sw => Rectangle {
            origin: r.origin,
            width: (c.x - r.origin.x) as i64,
            height: (c.y - r.origin.y) as i64,
        },
        Quadrant::Se => Rectangle {
            origin: Point { x: c.x, y: r.origin.y },
            width: (r.origin.x + r.width - c.x) as i64,
            height: (c.y - r.origin.y) as i64,
        },
        Quadrant::Nw => Rectangle {
            origin: Point { x: r.origin.x, y: c.y },
            width: (c.x - r.origin.x) as i64,
            height: (r.origin.y + r.height - c.y) as i64,
        },
        Quadrant::Ne => Rectangle {
            origin: Point { x: c.x, y: c.y },
            width: (r.origin.x + r.width - c.x) as i64,
            height: (r.origin.y + r.height - c.y) as i64,
        },
    }
}

/// The quadrant of `r` that `p` falls in, by the same two center
/// comparisons insertion and subdivision use.
pub open spec fn quadrant_of(r: Rectangle, p: Point) -> Quadrant {
    let c = spec_center(r);
    if p.x < c.x {
        if p.y < c.y {
            Quadrant::Sw
        } else {
            Quadrant::Nw
        }
    } else {
        if p.y < c.y {
            Quadrant::Se
        } else {
            Quadrant::Ne
        }
    }
}

/// The two endpoints of the requested side of `r`, ordered from the
/// lower coordinate to the higher one.
pub open spec fn spec_edge_vertices(r: Rectangle, d: Direction) -> (Point, Point) {
    let x0 = r.origin.x;
    let y0 = r.origin.y;
    let x1 = (r.origin.x + r.width) as i64;
    let y1 = (r.origin.y + r.height) as i64;
    match d {
        Direction::North => (Point { x: x0, y: y1 }, Point { x: x1, y: y1 }),
        Direction::East => (Point { x: x1, y: y0 }, Point { x: x1, y: y1 }),
        Direction::South => (Point { x: x0, y: y0 }, Point { x: x1, y: y0 }),
        Direction::West => (Point { x: x0, y: y0 }, Point { x: x0, y: y1 }),
    }
}

impl Rectangle {
    /// Whether `point` lies within this rectangle, inclusive of the
    /// origin edges and exclusive of the far edges, so that a point on
    /// the seam of two abutting rectangles belongs to exactly one.
    pub fn contains(&self, point: &Point) -> (r: bool)
        requires
            rect_wf(*self),
        ensures
            r == spec_contains(*self, *point),
    {
        point.x >= self.origin.x && point.x < self.origin.x + self.width && point.y
            >= self.origin.y && point.y < self.origin.y + self.height
    }

    /// The center of the rectangle, each half-extent rounded down.
    pub fn center(&self) -> (c: Point)
        requires
            rect_wf(*self),
        ensures
            c == spec_center(*self),
    {
        Point { x: self.origin.x + self.width / 2, y: self.origin.y + self.height / 2 }
    }

    /// The two endpoints of the side of the rectangle facing
    /// `direction`, from the lower coordinate to the higher one.
    pub fn edge_vertices(&self, direction: Direction) -> (v: (Point, Point))
        requires
            rect_wf(*self),
        ensures
            v == spec_edge_vertices(*self, direction),
    {
        let x0 = self.origin.x;
        let y0 = self.origin.y;
        let x1 = self.origin.x + self.width;
        let y1 = self.origin.y + self.height;
        match direction {
            Direction::North => (Point { x: x0, y: y1 }, Point { x: x1, y: y1 }),
            Direction::East => (Point { x: x1, y: y0 }, Point { x: x1, y: y1 }),
            Direction::South => (Point { x: x0, y: y0 }, Point { x: x1, y: y0 }),
            Direction::West => (Point { x: x0, y: y0 }, Point { x: x0, y: y1 }),
        }
    }
}

/// A quadrant of a well-formed rectangle is well-formed.
pub proof fn lemma_quadrant_rect_wf(r: Rectangle, q: Quadrant)
    requires
        rect_wf(r),
    ensures
        rect_wf(quadrant_rect(r, q)),
{
}

/// Law: the four quadrants of a well-formed rectangle exactly tile it.
/// Every point of the parent lies in exactly one quadrant — the one
/// `quadrant_of` names — and points outside the parent lie in none.
pub proof fn lemma_quadrants_partition(r: Rectangle, p: Point)
    requires
        rect_wf(r),
    ensures
        spec_contains(r, p) <==> spec_contains(quadrant_rect(r, quadrant_of(r, p)), p),
        forall|q1: Quadrant, q2: Quadrant|
            spec_contains(quadrant_rect(r, q1), p) && spec_contains(quadrant_rect(r, q2), p)
                ==> q1 == q2,
{
}

/// Law: the areas of the four quadrants sum to the area of the parent,
/// so the tiling loses nothing and counts nothing twice.
pub proof fn lemma_quadrants_area(r: Rectangle)
    requires
        rect_wf(r),
    ensures
        quadrant_area(r, Quadrant::Nw) + quadrant_area(r, Quadrant::Ne) + quadrant_area(
            r,
            Quadrant::Sw,
        ) + quadrant_area(r, Quadrant::Se) == r.width * r.height,
{
    let hw = r.width / 2;
    let hh = r.height / 2;
    assert(hw * hh + (r.width - hw) * hh + hw * (r.height - hh) + (r.width - hw) * (r.height - hh)
        == r.width * r.height) by (nonlinear_arith);
}

/// The area of one quadrant of `r`.
pub open spec fn quadrant_area(r: Rectangle, q: Quadrant) -> int {
    quadrant_rect(r, q).width * quadrant_rect(r, q).height
}

} // verus!
