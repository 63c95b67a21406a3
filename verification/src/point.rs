//! Integer 2D points and axis-aligned rectangles.

use vstd::prelude::*;

verus! {

/// A pair of signed 32-bit integers.
#[derive(Clone, Copy, Debug, PartialEq, Eq, Structural)]
pub struct Point {
    pub x: i32,
    pub y: i32,
}

impl Point {
    pub fn new(x: i32, y: i32) -> (r: Point)
        ensures
            r.x == x,
            r.y == y,
    {
        Point { x, y }
    }

    /// Elementwise sum.
    pub fn add(self, other: Point) -> (r: Point)
        requires
            i32::MIN <= self.x + other.x <= i32::MAX,
            i32::MIN <= self.y + other.y <= i32::MAX,
        ensures
            r.x == self.x + other.x,
            r.y == self.y + other.y,
    {
        Point { x: self.x + other.x, y: self.y + other.y }
    }

    /// Elementwise difference.
    pub fn sub(self, other: Point) -> (r: Point)
        requires
            i32::MIN <= self.x - other.x <= i32::MAX,
            i32::MIN <= self.y - other.y <= i32::MAX,
        ensures
            r.x == self.x - other.x,
            r.y == self.y - other.y,
    {
        Point { x: self.x - other.x, y: self.y - other.y }
    }

    /// Elementwise absolute value.
    pub fn abs(self) -> (r: Point)
        requires
            self.x != i32::MIN,
            self.y != i32::MIN,
        ensures
            r.x == abs_i32(self.x as int),
            r.y == abs_i32(self.y as int),
    {
        Point {
            x: if self.x < 0 { -self.x } else { self.x },
            y: if self.y < 0 { -self.y } else { self.y },
        }
    }

    /// Elementwise sign (-1, 0 or 1).
    pub fn signum(self) -> (r: Point)
        ensures
            r.x == sign_i32(self.x as int),
            r.y == sign_i32(self.y as int),
    {
        Point {
            x: if self.x < 0 { -1 } else if self.x > 0 { 1 } else { 0 },
            y: if self.y < 0 { -1 } else if self.y > 0 { 1 } else { 0 },
        }
    }
}

/// Absolute value on mathematical integers.
pub open spec fn abs_i32(v: int) -> int {
    if v < 0 { -v } else { v }
}

/// Sign on mathematical integers: -1, 0 or 1.
pub open spec fn sign_i32(v: int) -> int {
    if v < 0 { -1 } else if v > 0 { 1 } else { 0 }
}

/// An axis-aligned rectangle spanning pixels with `left <= x < right` and
/// `top <= y < bottom`.
#[derive(Clone, Copy, Debug, PartialEq, Eq, Structural)]
pub struct Rect {
    pub left: i32,
    pub top: i32,
    pub right: i32,
    pub bottom: i32,
}

impl Rect {
    pub fn new(left: i32, top: i32, right: i32, bottom: i32) -> (r: Rect)
        ensures
            r.left == left,
            r.top == top,
            r.right == right,
            r.bottom == bottom,
    {
        Rect { left, top, right, bottom }
    }
}

} // verus!
