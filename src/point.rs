use vstd::prelude::*;

verus! {

/// One of the four half-open quadrants around a point.
///
/// The plane is laid out with `(0, 0)` at the top left, `+x` pointing east and
/// `+y` pointing south.
#[derive(Debug, Clone, Copy, PartialEq, Eq, Structural)]
pub enum Quadrant {
    Northeast,
    Northwest,
    Southeast,
    Southwest,
}

/// A point on the integer plane. Small and meant to be passed by value.
#[derive(Debug, Clone, Copy, PartialEq, Eq, Structural)]
pub struct Point {
    pub x: i64,
    pub y: i64,
}

/// The quadrant in which `o` lies as seen from `p`.
///
/// East (on the same row) counts as northeast, north (on the same column) as
/// northwest, west as southwest and south as southeast.
pub open spec fn quadrant_of(p: Point, o: Point) -> Quadrant {
    if o.x > p.x && o.y <= p.y {
        Quadrant::Northeast
    } else if o.x <= p.x && o.y < p.y {
        Quadrant::Northwest
    } else if o.x < p.x && o.y >= p.y {
        Quadrant::Southwest
    } else {
        Quadrant::Southeast
    }
}

impl Point {
    pub fn new(x: i64, y: i64) -> (r: Point)
        ensures
            r.x == x,
            r.y == y,
    {
        Point { x, y }
    }

    pub fn x(&self) -> (r: i64)
        ensures
            r == self.x,
    {
        self.x
    }

    pub fn y(&self) -> (r: i64)
        ensures
            r == self.y,
    {
        self.y
    }

    /// Classifies `other` into the quadrant of the plane around `self` in which
    /// it lies (see [`quadrant_of`]).
    pub fn dir_towards(&self, other: Point) -> (r: Quadrant)
        ensures
            r == quadrant_of(*self, other),
    {
        if other.x > self.x && other.y <= self.y {
            Quadrant::Northeast
        } else if other.x <= self.x && other.y < self.y {
            Quadrant::Northwest
        } else if other.x < self.x && other.y >= self.y {
            Quadrant::Southwest
        } else {
            Quadrant::Southeast
        }
    }
}

/// Whether the component-wise sum of `p` and `q` is representable.
pub open spec fn sum_fits(p: Point, q: Point) -> bool {
    &&& i64::MIN <= p.x + q.x <= i64::MAX
    &&& i64::MIN <= p.y + q.y <= i64::MAX
}

/// Whether the component-wise difference of `p` and `q` is representable.
pub open spec fn difference_fits(p: Point, q: Point) -> bool {
    &&& i64::MIN <= p.x - q.x <= i64::MAX
    &&& i64::MIN <= p.y - q.y <= i64::MAX
}

/// Component-wise sum.
pub open spec fn point_add(p: Point, q: Point) -> Point {
    Point { x: (p.x + q.x) as i64, y: (p.y + q.y) as i64 }
}

/// Component-wise difference.
pub open spec fn point_sub(p: Point, q: Point) -> Point {
    Point { x: (p.x - q.x) as i64, y: (p.y - q.y) as i64 }
}

impl std::ops::Add for Point {
    type Output = Point;

    fn add(self, other: Point) -> (r: Point) {
        Point { x: self.x + other.x, y: self.y + other.y }
    }
}

impl vstd::std_specs::ops::AddSpecImpl for Point {
    open spec fn obeys_add_spec() -> bool {
        true
    }

    open spec fn add_req(self, other: Point) -> bool {
        sum_fits(self, other)
    }

    open spec fn add_spec(self, other: Point) -> Point {
        point_add(self, other)
    }
}

impl std::ops::Sub for Point {
    type Output = Point;

    fn sub(self, other: Point) -> (r: Point) {
        Point { x: self.x - other.x, y: self.y - other.y }
    }
}

impl vstd::std_specs::ops::SubSpecImpl for Point {
    open spec fn obeys_sub_spec() -> bool {
        true
    }

    open spec fn sub_req(self, other: Point) -> bool {
        difference_fits(self, other)
    }

    open spec fn sub_spec(self, other: Point) -> Point {
        point_sub(self, other)
    }
}

impl From<(i64, i64)> for Point {
    fn from(xy: (i64, i64)) -> (r: Point) {
        Point { x: xy.0, y: xy.1 }
    }
}

impl vstd::std_specs::convert::FromSpecImpl<(i64, i64)> for Point {
    open spec fn obeys_from_spec() -> bool {
        true
    }

    open spec fn from_spec(xy: (i64, i64)) -> Point {
        Point { x: xy.0, y: xy.1 }
    }
}

impl From<Point> for (i64, i64) {
    fn from(p: Point) -> (r: (i64, i64)) {
        (p.x, p.y)
    }
}

impl vstd::std_specs::convert::FromSpecImpl<Point> for (i64, i64) {
    open spec fn obeys_from_spec() -> bool {
        true
    }

    open spec fn from_spec(p: Point) -> (i64, i64) {
        (p.x, p.y)
    }
}

/// Adding a point and then subtracting it again gives back the point it was
/// added to, whenever the sum is representable.
pub proof fn lemma_add_sub_round_trip(p: Point, q: Point)
    requires
        sum_fits(p, q),
    ensures
        difference_fits(point_add(p, q), q),
        point_sub(point_add(p, q), q) == p,
{
}

/// Every point other than `p` itself falls in exactly one of the four
/// quadrants around `p`, and the quadrant depends only on the signs of the two
/// offsets.
pub proof fn lemma_quadrants_partition(p: Point, o: Point)
    requires
        o != p,
    ensures
        quadrant_of(p, o) == Quadrant::Northeast <==> (o.x > p.x && o.y <= p.y),
        quadrant_of(p, o) == Quadrant::Northwest <==> (o.x <= p.x && o.y < p.y),
        quadrant_of(p, o) == Quadrant::Southwest <==> (o.x < p.x && o.y >= p.y),
        quadrant_of(p, o) == Quadrant::Southeast <==> (o.x >= p.x && o.y > p.y),
{
}

} // verus!
