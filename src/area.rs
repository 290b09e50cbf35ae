use vstd::prelude::*;
use crate::point::Point;

verus! {

/// A rectangle on the integer plane: the cells `[x, x + width)` by
/// `[y, y + height)`, where `(x, y)` is its anchor (the top-left corner).
///
/// Width and height are strictly positive (see [`Area::wf`]); a point is an
/// area of size `(1, 1)`.
#[derive(Debug, Clone, Copy, PartialEq, Eq, Structural)]
pub struct Area {
    pub anchor: Point,
    pub width: i64,
    pub height: i64,
}

impl Area {
    /// Both extents are strictly positive.
    pub open spec fn wf(&self) -> bool {
        self.width > 0 && self.height > 0
    }

    pub open spec fn left(&self) -> int {
        self.anchor.x as int
    }

    pub open spec fn top(&self) -> int {
        self.anchor.y as int
    }

    /// The first column east of the area.
    pub open spec fn right(&self) -> int {
        self.anchor.x + self.width
    }

    /// The first row south of the area.
    pub open spec fn bottom(&self) -> int {
        self.anchor.y + self.height
    }

    /// Whether the cell `(x, y)` lies in the area.
    pub open spec fn covers(&self, x: int, y: int) -> bool {
        self.left() <= x < self.right() && self.top() <= y < self.bottom()
    }

    /// `other` lies wholly inside `self`.
    pub open spec fn spec_contains(&self, other: Area) -> bool {
        &&& self.left() <= other.left()
        &&& other.right() <= self.right()
        &&& self.top() <= other.top()
        &&& other.bottom() <= self.bottom()
    }

    /// The two areas share at least one cell.
    pub open spec fn spec_intersects(&self, other: Area) -> bool {
        &&& self.left() < other.right()
        &&& other.left() < self.right()
        &&& self.top() < other.bottom()
        &&& other.top() < self.bottom()
    }

    /// The area from an anchor and a `(width, height)` pair.
    pub fn new(anchor: (i64, i64), size: (i64, i64)) -> (r: Area)
        requires
            size.0 > 0,
            size.1 > 0,
        ensures
            r.wf(),
            r.anchor == (Point { x: anchor.0, y: anchor.1 }),
            r.width == size.0,
            r.height == size.1,
    {
        Area { anchor: Point::new(anchor.0, anchor.1), width: size.0, height: size.1 }
    }

    /// The area as `(anchor, (width, height))`.
    pub fn inner(&self) -> (r: ((i64, i64), (i64, i64)))
        ensures
            r == ((self.anchor.x, self.anchor.y), (self.width, self.height)),
    {
        ((self.anchor.x, self.anchor.y), (self.width, self.height))
    }

    pub fn anchor(&self) -> (r: Point)
        ensures
            r == self.anchor,
    {
        self.anchor
    }

    pub fn width(&self) -> (r: i64)
        ensures
            r == self.width,
    {
        self.width
    }

    pub fn height(&self) -> (r: i64)
        ensures
            r == self.height,
    {
        self.height
    }

    /// Whether `other` lies wholly inside `self`. The far edges are computed
    /// without overflow.
    pub fn contains(&self, other: Area) -> (r: bool)
        ensures
            r == self.spec_contains(other),
    {
        let left = self.anchor.x as i128;
        let top = self.anchor.y as i128;
        let right = left + self.width as i128;
        let bottom = top + self.height as i128;
        let o_left = other.anchor.x as i128;
        let o_top = other.anchor.y as i128;
        let o_right = o_left + other.width as i128;
        let o_bottom = o_top + other.height as i128;
        left <= o_left && o_right <= right && top <= o_top && o_bottom <= bottom
    }

    /// Whether the two areas share at least one cell. The far edges are
    /// computed without overflow.
    pub fn intersects(&self, other: Area) -> (r: bool)
        ensures
            r == self.spec_intersects(other),
    {
        let left = self.anchor.x as i128;
        let top = self.anchor.y as i128;
        let right = left + self.width as i128;
        let bottom = top + self.height as i128;
        let o_left = other.anchor.x as i128;
        let o_top = other.anchor.y as i128;
        let o_right = o_left + other.width as i128;
        let o_bottom = o_top + other.height as i128;
        left < o_right && o_left < right && top < o_bottom && o_top < bottom
    }
}

/// Containment and intersection agree with the cells that the areas cover:
/// `a` contains `b` exactly when every cell of `b` is a cell of `a`, and they
/// intersect exactly when some cell is covered by both.
pub proof fn lemma_cells(a: Area, b: Area)
    requires
        a.wf(),
        b.wf(),
    ensures
        a.spec_contains(b) <==> forall|x: int, y: int| b.covers(x, y) ==> #[trigger] a.covers(x, y),
        a.spec_intersects(b) <==> exists|x: int, y: int| a.covers(x, y) && #[trigger] b.covers(x, y),
{
    if forall|x: int, y: int| b.covers(x, y) ==> #[trigger] a.covers(x, y) {
        assert(a.covers(b.left(), b.top()));
        assert(a.covers(b.right() - 1, b.bottom() - 1));
    }
    if a.spec_intersects(b) {
        let x = if a.left() < b.left() { b.left() } else { a.left() };
        let y = if a.top() < b.top() { b.top() } else { a.top() };
        assert(a.covers(x, y) && b.covers(x, y));
    }
}

/// An area that contains another also intersects it, and intersection does not
/// depend on the order of its arguments.
pub proof fn lemma_contains_intersects(a: Area, b: Area)
    requires
        a.wf(),
        b.wf(),
    ensures
        a.spec_contains(b) ==> a.spec_intersects(b),
        a.spec_intersects(b) == b.spec_intersects(a),
{
}

} // verus!
