//! Integer screen-space geometry: 2D vectors, axis-aligned rectangles, and
//! RGBA colors.
//!
//! All distances are in pixels, measured from the top-left corner of the
//! surface, with `y` growing downward.

use vstd::prelude::*;

verus! {

/// A 2D integer vector, used both for points and for sizes.
#[derive(Clone, Copy, PartialEq, Eq, Structural, Debug)]
pub struct Vec2 {
    pub x: i32,
    pub y: i32,
}

impl Vec2 {
    pub fn new(x: i32, y: i32) -> (r: Vec2)
        ensures
            r.x == x,
            r.y == y,
    {
        Vec2 { x, y }
    }

    /// The zero vector.
    pub fn zero() -> (r: Vec2)
        ensures
            r.x == 0,
            r.y == 0,
    {
        Vec2 { x: 0, y: 0 }
    }
}

/// An axis-aligned rectangle, from `start` (top-left, inclusive) to `end`
/// (bottom-right, exclusive).
#[derive(Clone, Copy, PartialEq, Eq, Structural, Debug)]
pub struct Recti {
    pub start: Vec2,
    pub end: Vec2,
}

impl Recti {
    /// True when the point lies inside the rectangle: at or right of and
    /// below `start`, strictly left of and above `end`.
    pub open spec fn spec_contains_point(self, p: Vec2) -> bool {
        self.start.x <= p.x < self.end.x && self.start.y <= p.y < self.end.y
    }

    /// The extent of the rectangle on each axis, as mathematical integers.
    pub open spec fn spec_size(self) -> (int, int) {
        (self.end.x - self.start.x, self.end.y - self.start.y)
    }

    /// True when `other` lies entirely within `self` (inclusive).
    pub open spec fn spec_contains_rect(self, other: Recti) -> bool {
        self.start.x <= other.start.x && self.start.y <= other.start.y
            && other.end.x <= self.end.x && other.end.y <= self.end.y
    }

    pub fn new(start: Vec2, end: Vec2) -> (r: Recti)
        ensures
            r.start == start,
            r.end == end,
    {
        Recti { start, end }
    }

    pub fn contains_point(&self, p: Vec2) -> (r: bool)
        ensures
            r == self.spec_contains_point(p),
    {
        self.start.x <= p.x && p.x < self.end.x && self.start.y <= p.y && p.y < self.end.y
    }

    /// The extent of the rectangle on each axis.
    pub fn size(&self) -> (r: Vec2)
        requires
            i32::MIN <= self.end.x - self.start.x <= i32::MAX,
            i32::MIN <= self.end.y - self.start.y <= i32::MAX,
        ensures
            r.x == self.spec_size().0,
            r.y == self.spec_size().1,
    {
        Vec2 { x: self.end.x - self.start.x, y: self.end.y - self.start.y }
    }
}

/// The vector 90 degrees counterclockwise from the given vector, under the
/// screen's y-grows-downward orientation.
pub fn ccw_perp(v: Vec2) -> (r: Vec2)
    requires
        i32::MIN < v.x,
    ensures
        r.x == v.y,
        r.y == -v.x,
{
    Vec2 { x: v.y, y: -v.x }
}

/// An RGBA color with 8-bit channels. The engine only selects and passes
/// colors through; the external renderer interprets them.
#[derive(Clone, Copy, PartialEq, Eq, Structural, Debug)]
pub struct Color {
    pub r: u8,
    pub g: u8,
    pub b: u8,
    pub a: u8,
}

impl Color {
    pub fn new(r: u8, g: u8, b: u8, a: u8) -> (c: Color)
        ensures
            c.r == r,
            c.g == g,
            c.b == b,
            c.a == a,
    {
        Color { r, g, b, a }
    }

    /// Opaque black.
    pub fn black() -> (c: Color)
        ensures
            c == (Color { r: 0, g: 0, b: 0, a: 255 }),
    {
        Color { r: 0, g: 0, b: 0, a: 255 }
    }
}

} // verus!
