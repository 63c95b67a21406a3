//! The six compass directions of the staggered hexagonal grid.

use vstd::prelude::*;
use crate::point::Point;

verus! {

/// One of the six hex directions, in fixed ordinal order
/// NE = 0, E = 1, SE = 2, SW = 3, W = 4, NW = 5.
#[derive(Clone, Copy, Debug, PartialEq, Eq, Structural)]
pub enum Direction {
    NE,
    E,
    SE,
    SW,
    W,
    NW,
}

/// Number of directions.
pub const DIRECTION_LEN: usize = 6;

/// The fixed ordinal of a direction.
pub open spec fn dir_ordinal(d: Direction) -> int {
    match d {
        Direction::NE => 0,
        Direction::E => 1,
        Direction::SE => 2,
        Direction::SW => 3,
        Direction::W => 4,
        Direction::NW => 5,
    }
}

impl Direction {
    /// The fixed ordinal of this direction.
    pub fn ordinal(self) -> (r: usize)
        ensures
            r == dir_ordinal(self),
    {
        match self {
            Direction::NE => 0,
            Direction::E => 1,
            Direction::SE => 2,
            Direction::SW => 3,
            Direction::W => 4,
            Direction::NW => 5,
        }
    }

    /// The direction with the given ordinal; none when `n` is out of range.
    pub fn from_ordinal(n: usize) -> (r: Option<Direction>)
        ensures
            n < 6 ==> (r matches Some(d) && dir_ordinal(d) == n),
            n >= 6 ==> r is None,
    {
        match n {
            0 => Some(Direction::NE),
            1 => Some(Direction::E),
            2 => Some(Direction::SE),
            3 => Some(Direction::SW),
            4 => Some(Direction::W),
            5 => Some(Direction::NW),
            _ => None,
        }
    }

    /// All six directions, in ordinal order.
    pub fn values() -> (r: [Direction; 6])
        ensures
            forall|i: int| 0 <= i < 6 ==> dir_ordinal(#[trigger] r@[i]) == i,
    {
        [
            Direction::NE,
            Direction::E,
            Direction::SE,
            Direction::SW,
            Direction::W,
            Direction::NW,
        ]
    }
}

/// The screen-pixel offset between two adjacent hexes, as a pair of
/// mathematical integers: NE (16, -12), E (32, 0), SE (16, 12),
/// SW (-16, 12), W (-32, 0), NW (-16, -12).
pub open spec fn screen_offset_spec(d: Direction) -> (int, int) {
    match d {
        Direction::NE => (16, -12),
        Direction::E => (32, 0),
        Direction::SE => (16, 12),
        Direction::SW => (-16, 12),
        Direction::W => (-32, 0),
        Direction::NW => (-16, -12),
    }
}

/// Offset in screen coordinates between two adjacent hexes when going in
/// `direction`. The constants derive from the 32x16 tile bounding box with
/// 8-pixel inner height: the vertical stride is 8 + (16 - 8) / 2 = 12.
pub fn screen_offset(direction: Direction) -> (r: Point)
    ensures
        r.x == screen_offset_spec(direction).0,
        r.y == screen_offset_spec(direction).1,
{
    match direction {
        Direction::NE => Point { x: 16, y: -12 },
        Direction::E => Point { x: 32, y: 0 },
        Direction::SE => Point { x: 16, y: 12 },
        Direction::SW => Point { x: -16, y: 12 },
        Direction::W => Point { x: -32, y: 0 },
        Direction::NW => Point { x: -16, y: -12 },
    }
}

} // verus!
