//! Points, sizes, edge quadruples and rectangles in integer pixels.
use vstd::prelude::*;

verus! {

/// The largest magnitude that a stored layout length may have.
pub const MAX_LENGTH: i64 = 0x4000_0000;

/// The largest magnitude that a stored offset may have: an offset adds up
/// a length and the edges around it.
pub const MAX_OFFSET: i64 = 0x2_0000_0000;

/// Whether an integer fits in an `i64`.
pub open spec fn fits_i64(v: int) -> bool {
    i64::MIN <= v <= i64::MAX
}

#[derive(Clone, Copy, Debug, PartialEq, Eq, Structural)]
pub struct Point {
    pub x: i64,
    pub y: i64,
}

impl Point {
    pub fn new(x: i64, y: i64) -> (r: Point)
        ensures
            r.x == x,
            r.y == y,
    {
        Point { x, y }
    }
}

#[derive(Clone, Copy, Debug, PartialEq, Eq, Structural)]
pub struct Size {
    pub width: i64,
    pub height: i64,
}

impl Size {
    pub fn new(width: i64, height: i64) -> (r: Size)
        ensures
            r.width == width,
            r.height == height,
    {
        Size { width, height }
    }
}

/// Four lengths, one per side, in CSS order.
#[derive(Clone, Copy, Debug, PartialEq, Eq, Structural)]
pub struct Edges {
    pub top: i64,
    pub right: i64,
    pub bottom: i64,
    pub left: i64,
}

impl Edges {
    pub fn new(top: i64, right: i64, bottom: i64, left: i64) -> (r: Edges)
        ensures
            r == (Edges { top, right, bottom, left }),
    {
        Edges { top, right, bottom, left }
    }

    pub fn zero() -> (r: Edges)
        ensures
            r == (Edges { top: 0, right: 0, bottom: 0, left: 0 }),
    {
        Edges { top: 0, right: 0, bottom: 0, left: 0 }
    }

    /// Every side lies in `0..=MAX_LENGTH`.
    pub open spec fn is_bounded(&self) -> bool {
        &&& 0 <= self.top <= MAX_LENGTH
        &&& 0 <= self.right <= MAX_LENGTH
        &&& 0 <= self.bottom <= MAX_LENGTH
        &&& 0 <= self.left <= MAX_LENGTH
    }
}

#[derive(Clone, Copy, Debug, PartialEq, Eq, Structural)]
pub struct Rect {
    pub x: i64,
    pub y: i64,
    pub width: i64,
    pub height: i64,
}

impl Rect {
    pub fn new(x: i64, y: i64, width: i64, height: i64) -> (r: Rect)
        ensures
            r == (Rect { x, y, width, height }),
    {
        Rect { x, y, width, height }
    }

    /// The rectangle with origin `p` and extent `s`.
    pub fn from_point_size(p: Point, s: Size) -> (r: Rect)
        ensures
            r == (Rect { x: p.x, y: p.y, width: s.width, height: s.height }),
    {
        Rect { x: p.x, y: p.y, width: s.width, height: s.height }
    }

    /// Whether `add_outer_edges(e)` stays within `i64`.
    pub open spec fn can_add_outer_edges(&self, e: Edges) -> bool {
        &&& fits_i64(self.x - e.left)
        &&& fits_i64(self.y - e.top)
        &&& fits_i64(self.width + e.left + e.right)
        &&& fits_i64(self.width + e.left)
        &&& fits_i64(self.height + e.top + e.bottom)
        &&& fits_i64(self.height + e.top)
    }

    /// The rectangle grown outward by `e` on each side.
    pub open spec fn outer_spec(&self, e: Edges) -> Rect {
        Rect {
            x: (self.x - e.left) as i64,
            y: (self.y - e.top) as i64,
            width: (self.width + e.left + e.right) as i64,
            height: (self.height + e.top + e.bottom) as i64,
        }
    }

    /// Moves the rectangle by `(dx, dy)`, keeping its size.
    pub fn translate(&mut self, dx: i64, dy: i64)
        requires
            fits_i64(old(self).x + dx),
            fits_i64(old(self).y + dy),
        ensures
            final(self).x == old(self).x + dx,
            final(self).y == old(self).y + dy,
            final(self).width == old(self).width,
            final(self).height == old(self).height,
    {
        self.x = self.x + dx;
        self.y = self.y + dy;
    }

    /// Expands the rectangle outward by `e`: the origin moves up and left,
    /// and each side's length is added to the extent on its axis.
    pub fn add_outer_edges(&self, e: &Edges) -> (r: Rect)
        requires
            self.can_add_outer_edges(*e),
        ensures
            r == self.outer_spec(*e),
            r.x == self.x - e.left,
            r.y == self.y - e.top,
            r.width == self.width + e.left + e.right,
            r.height == self.height + e.top + e.bottom,
    {
        Rect {
            x: self.x - e.left,
            y: self.y - e.top,
            width: self.width + e.left + e.right,
            height: self.height + e.top + e.bottom,
        }
    }

    /// Whether `p` lies in the rectangle: the top and left boundaries are
    /// inside, the far boundaries `x + width` and `y + height` are not.
    pub open spec fn contains_spec(&self, p: Point) -> bool {
        &&& self.x <= p.x < self.x + self.width
        &&& self.y <= p.y < self.y + self.height
    }

    pub fn is_contain_point(&self, p: &Point) -> (r: bool)
        ensures
            r == self.contains_spec(*p),
    {
        let right = self.x as i128 + self.width as i128;
        let bottom = self.y as i128 + self.height as i128;
        self.x <= p.x && (p.x as i128) < right && self.y <= p.y && (p.y as i128) < bottom
    }
}

} // verus!
