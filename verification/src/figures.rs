//! Plane figures over integer coordinates, with verified point-containment
//! tests. The application keeps a generic copy for floating-point
//! coordinates and areas, which Verus refuses.

use vstd::prelude::*;

verus! {

/// A point of the integer plane.
#[derive(Debug, Clone, Copy, PartialEq, Eq, Structural, Hash)]
pub struct Point {
    pub x: i64,
    pub y: i64,
}

impl Default for Point {
    /// The origin.
    fn default() -> (r: Self)
        ensures
            r.x == 0 && r.y == 0,
    {
        Point { x: 0, y: 0 }
    }
}

/// An axis-aligned rectangle: lower-left corner plus extents.
#[derive(Debug, Clone, Copy, PartialEq, Eq, Structural, Hash)]
pub struct Rect {
    pub lower_left: Point,
    pub width: i64,
    pub height: i64,
}

impl Default for Rect {
    /// The unit square at the origin.
    fn default() -> (r: Self)
        ensures
            r.lower_left == (Point { x: 0, y: 0 }),
            r.width == 1 && r.height == 1,
    {
        Rect { lower_left: Point { x: 0, y: 0 }, width: 1, height: 1 }
    }
}

/// A circle: center plus radius.
#[derive(Debug, Clone, Copy, PartialEq, Eq, Structural, Hash)]
pub struct Circle {
    pub center: Point,
    pub radius: i64,
}

impl Default for Circle {
    /// The unit circle at the origin.
    fn default() -> (r: Self)
        ensures
            r.center == (Point { x: 0, y: 0 }),
            r.radius == 1,
    {
        Circle { center: Point { x: 0, y: 0 }, radius: 1 }
    }
}

/// Either kind of figure.
#[derive(Debug, Clone, Copy, PartialEq, Eq, Structural, Hash)]
pub enum Figure {
    Rect(Rect),
    Circle(Circle),
}

/// `p` lies in the rectangle, borders included.
pub open spec fn rect_contains(rect: Rect, p: Point) -> bool {
    &&& p.x >= rect.lower_left.x
    &&& p.x <= rect.lower_left.x + rect.width
    &&& p.y >= rect.lower_left.y
    &&& p.y <= rect.lower_left.y + rect.height
}

/// `p` lies in the circle, border included.
pub open spec fn circle_contains(circle: Circle, p: Point) -> bool {
    let dx = p.x - circle.center.x;
    let dy = p.y - circle.center.y;
    dx * dx + dy * dy <= circle.radius * circle.radius
}

/// `p` lies in the figure, borders included.
pub open spec fn figure_contains(figure: Figure, p: Point) -> bool {
    match figure {
        Figure::Rect(rect) => rect_contains(rect, p),
        Figure::Circle(circle) => circle_contains(circle, p),
    }
}

/// Coordinates small enough that the containment arithmetic stays exact.
pub open spec fn in_coordinate_range(v: i64) -> bool {
    -0x8000_0000 <= v <= 0x8000_0000
}

impl Rect {
    /// Whether the rectangle contains `p`, borders included.
    pub fn contains(&self, p: &Point) -> (r: bool)
        requires
            in_coordinate_range(self.lower_left.x),
            in_coordinate_range(self.lower_left.y),
            in_coordinate_range(self.width),
            in_coordinate_range(self.height),
        ensures
            r == rect_contains(*self, *p),
    {
        p.x >= self.lower_left.x && p.x <= self.lower_left.x + self.width
            && p.y >= self.lower_left.y && p.y <= self.lower_left.y + self.height
    }
}

impl Circle {
    /// Whether the circle contains `p`, border included.
    pub fn contains(&self, p: &Point) -> (r: bool)
        requires
            in_coordinate_range(self.center.x),
            in_coordinate_range(self.center.y),
            in_coordinate_range(self.radius),
            in_coordinate_range(p.x),
            in_coordinate_range(p.y),
        ensures
            r == circle_contains(*self, *p),
    {
        let dx: i64 = p.x - self.center.x;
        let dy: i64 = p.y - self.center.y;
        proof {
            assert(dx * dx <= 0x1_0000_0000_0000_0000 && dx * dx >= 0) by (nonlinear_arith)
                requires
                    -0x1_0000_0000 <= dx <= 0x1_0000_0000,
            {}
            assert(dy * dy <= 0x1_0000_0000_0000_0000 && dy * dy >= 0) by (nonlinear_arith)
                requires
                    -0x1_0000_0000 <= dy <= 0x1_0000_0000,
            {}
            assert(self.radius * self.radius <= 0x4000_0000_0000_0000
                && self.radius * self.radius >= 0) by (nonlinear_arith)
                requires
                    -0x8000_0000 <= self.radius <= 0x8000_0000,
            {}
        }
        let dx2: i128 = (dx as i128) * (dx as i128);
        let dy2: i128 = (dy as i128) * (dy as i128);
        let r2: i128 = (self.radius as i128) * (self.radius as i128);
        dx2 + dy2 <= r2
    }
}

impl Figure {
    /// Whether the figure contains `p`, borders included.
    pub fn contains(&self, p: &Point) -> (r: bool)
        requires
            match *self {
                Figure::Rect(rect) => {
                    &&& in_coordinate_range(rect.lower_left.x)
                    &&& in_coordinate_range(rect.lower_left.y)
                    &&& in_coordinate_range(rect.width)
                    &&& in_coordinate_range(rect.height)
                },
                Figure::Circle(circle) => {
                    &&& in_coordinate_range(circle.center.x)
                    &&& in_coordinate_range(circle.center.y)
                    &&& in_coordinate_range(circle.radius)
                    &&& in_coordinate_range(p.x)
                    &&& in_coordinate_range(p.y)
                },
            },
        ensures
            r == figure_contains(*self, *p),
    {
        match self {
            Figure::Rect(rect) => rect.contains(p),
            Figure::Circle(circle) => circle.contains(p),
        }
    }
}

} // verus!
