//! The staggered hexagonal tile grid: screen/tile coordinate conversions,
//! neighbour stepping, distances, linear-index mappings and bounds handling.

use vstd::prelude::*;
use crate::point::{Point, Rect};
use crate::direction::Direction;

verus! {

/// Largest magnitude accepted for coordinates that enter the screen/tile
/// conversions; keeps every intermediate product inside `i32`.
pub const PT_LIMIT: i32 = 0x0100_0000;

/// Largest magnitude accepted for pixel coordinates handed to `from_screen`.
pub const SCREEN_LIMIT: i32 = 0x0800_0000;

/// Largest number of tiles the iterative walkers (`distance`, `beyond`)
/// will traverse before giving up; far above any distance representable
/// on a well-formed grid.
pub const WALK_FUEL: u32 = 0x0040_0000;

/// Truncating division (toward zero) for a positive divisor, as the `/`
/// operator of `i32` computes it.
pub open spec fn tdiv(a: int, b: int) -> int {
    if a >= 0 { a / b } else { -((-a) / b) }
}

/// Truncating remainder matching `tdiv`.
pub open spec fn tmod(a: int, b: int) -> int {
    a - b * tdiv(a, b)
}

/// Where a pixel falls inside a tile's 32x16 bounding box: in the hexagon
/// proper, or in one of the four corner triangles outside it.
#[derive(Clone, Copy, Debug, PartialEq, Eq, Structural)]
pub enum TileHit {
    Inside,
    TopLeft,
    TopRight,
    BottomLeft,
    BottomRight,
}

impl TileHit {
    /// A stable numbering: Inside = 0, TopLeft = 1, TopRight = 2,
    /// BottomLeft = 3, BottomRight = 4.
    pub fn code(self) -> (r: usize)
        ensures
            r == hit_code(self),
    {
        match self {
            TileHit::Inside => 0,
            TileHit::TopLeft => 1,
            TileHit::TopRight => 2,
            TileHit::BottomLeft => 3,
            TileHit::BottomRight => 4,
        }
    }
}

pub open spec fn hit_code(h: TileHit) -> int {
    match h {
        TileHit::Inside => 0,
        TileHit::TopLeft => 1,
        TileHit::TopRight => 2,
        TileHit::BottomLeft => 3,
        TileHit::BottomRight => 4,
    }
}

/// Signed area test of `(px, py)` against the directed line from
/// `(x1, y1)` to `(x2, y2)`: the 2D cross product
/// `(px - x1)(y2 - y1) - (py - y1)(x2 - x1)`.
pub open spec fn line_test(px: int, py: int, x1: int, y1: int, x2: int, y2: int) -> int {
    (px - x1) * (y2 - y1) - (py - y1) * (x2 - x1)
}

/// The hit-test truth: four directed line tests against the hexagon's
/// slanted edges, top edges strict, bottom edges inclusive.
pub open spec fn hit_spec(x: int, y: int) -> TileHit {
    if line_test(x, y, 0, 4, 16, 0) > 0 {
        TileHit::TopLeft
    } else if line_test(x, y, 16, 0, 32, 4) > 0 {
        TileHit::TopRight
    } else if line_test(x, y, 0, 12, 16, 16) <= 0 {
        TileHit::BottomLeft
    } else if line_test(x, y, 16, 16, 32, 12) <= 0 {
        TileHit::BottomRight
    } else {
        TileHit::Inside
    }
}

/// Classifies a pixel relative to a tile's 32x16 bounding box whose top-left
/// corner is the origin.
pub fn tile_hit_test(p: Point) -> (r: TileHit)
    requires
        -0x0400_0000 <= p.x <= 0x0400_0000,
        -0x0400_0000 <= p.y <= 0x0400_0000,
    ensures
        r == hit_spec(p.x as int, p.y as int),
{
    // (p.x - 0) * (0 - 4) - (p.y - 4) * (16 - 0)
    if (p.x) * (-4) - (p.y - 4) * 16 > 0 {
        return TileHit::TopLeft;
    }
    // (p.x - 16) * (4 - 0) - (p.y - 0) * (32 - 16)
    if (p.x - 16) * 4 - (p.y) * 16 > 0 {
        return TileHit::TopRight;
    }
    // (p.x - 0) * (16 - 12) - (p.y - 12) * (16 - 0)
    if (p.x) * 4 - (p.y - 12) * 16 <= 0 {
        return TileHit::BottomLeft;
    }
    // (p.x - 16) * (12 - 16) - (p.y - 16) * (32 - 16)
    if (p.x - 16) * (-4) - (p.y - 16) * 16 <= 0 {
        return TileHit::BottomRight;
    }
    TileHit::Inside
}

/// A staggered hexagonal grid of `width x height` tiles. The tile at `pos`
/// is anchored at pixel `screen_pos` (the top-left corner of its 32x16
/// bounding box when `pos.x` is even).
#[derive(Clone, Copy, Debug, PartialEq, Eq, Structural)]
pub struct TileGrid {
    pub screen_pos: Point,
    pub pos: Point,
    pub width: i32,
    pub height: i32,
}

/// Well-formedness of a grid: at least one tile each way, dimensions and
/// origins small enough that every conversion stays inside `i32`.
pub open spec fn grid_wf(g: TileGrid) -> bool {
    &&& 1 <= g.width <= 0x8000
    &&& 1 <= g.height <= 0x8000
    &&& -0x10_0000 <= g.screen_pos.x <= 0x10_0000
    &&& -0x10_0000 <= g.screen_pos.y <= 0x10_0000
    &&& -0x10_0000 <= g.pos.x <= 0x10_0000
    &&& -0x10_0000 <= g.pos.y <= 0x10_0000
}

/// Whether tile `(x, y)` lies on the grid.
pub open spec fn in_bounds_spec(g: TileGrid, x: int, y: int) -> bool {
    0 <= x < g.width && 0 <= y < g.height
}

/// Screen position of tile `p`: `48 dx` right and `12 dx` up per pair of
/// columns, a stagger correction for odd columns, and `(16, 12)` per row.
pub open spec fn to_screen_spec(g: TileGrid, px: int, py: int) -> (int, int) {
    let t = tdiv(px - g.pos.x, 2);
    let odd = tmod(px, 2) != 0;
    let ax: int = if odd { if px <= g.pos.x { -16 } else { 32 } } else { 0 };
    let ay: int = if odd { if px <= g.pos.x { 12 } else { 0 } } else { 0 };
    let dy = py - g.pos.y;
    (g.screen_pos.x + 48 * t + ax + 16 * dy, g.screen_pos.y + (-12) * t + ay + 12 * dy)
}

/// Tile containing pixel `(px, py)`: a floor decomposition into the
/// half-row/half-column lattice followed by the corner hit test. The corner
/// adjustments test parity with the truncating remainder, so a negative odd
/// `tile_x` entering the top-right case gets no row shift; the legacy
/// coordinates depend on exactly this behaviour.
pub open spec fn from_screen_spec(g: TileGrid, px: int, py: int) -> (int, int) {
    let ay = py - g.screen_pos.y;
    let ty0 = ay / 12;
    let hx = px - g.screen_pos.x - 16 * ty0;
    let sy = ay - 12 * ty0;
    let thx = hx / 64;
    let sx0 = hx - 64 * thx;
    let tx0 = 2 * thx + if sx0 >= 32 { 1int } else { 0 };
    let sx = if sx0 >= 32 { sx0 - 32 } else { sx0 };
    let tx1 = tx0 + g.pos.x;
    let ty1 = ty0 + thx + g.pos.y;
    match hit_spec(sx, sy) {
        TileHit::TopRight => {
            if tmod(tx1 + 1, 2) == 1 { (tx1 + 1, ty1 - 1) } else { (tx1 + 1, ty1) }
        },
        TileHit::TopLeft => (tx1, ty1 - 1),
        TileHit::BottomLeft => {
            if tmod(tx1 - 1, 2) == 0 { (tx1 - 1, ty1 + 1) } else { (tx1 - 1, ty1) }
        },
        TileHit::BottomRight => (tx1, ty1 + 1),
        TileHit::Inside => (tx1, ty1),
    }
}

/// One neighbour step from `(x, y)` in direction `d`; odd and even columns
/// advance differently.
pub open spec fn hex_step(x: int, y: int, d: Direction) -> (int, int) {
    if x % 2 == 0 {
        match d {
            Direction::NE => (x + 1, y - 1),
            Direction::E => (x + 1, y),
            Direction::SE => (x, y + 1),
            Direction::SW => (x - 1, y),
            Direction::W => (x - 1, y - 1),
            Direction::NW => (x, y - 1),
        }
    } else {
        match d {
            Direction::NE => (x + 1, y),
            Direction::E => (x + 1, y + 1),
            Direction::SE => (x, y + 1),
            Direction::SW => (x - 1, y + 1),
            Direction::W => (x - 1, y),
            Direction::NW => (x, y - 1),
        }
    }
}

/// `n` unbounded neighbour steps, parity read from the current column at
/// each step.
pub open spec fn go_n(x: int, y: int, d: Direction, n: nat) -> (int, int)
    decreases n,
{
    if n == 0 {
        (x, y)
    } else {
        let q = hex_step(x, y, d);
        go_n(q.0, q.1, d, (n - 1) as nat)
    }
}

/// `n` clipped neighbour steps: stops just before the first step that would
/// leave the grid.
pub open spec fn go_clipped_n(g: TileGrid, x: int, y: int, d: Direction, n: nat) -> (int, int)
    decreases n,
{
    if n == 0 {
        (x, y)
    } else {
        let q = hex_step(x, y, d);
        if !in_bounds_spec(g, q.0, q.1) {
            (x, y)
        } else {
            go_clipped_n(g, q.0, q.1, d, (n - 1) as nat)
        }
    }
}

impl TileGrid {
    /// A grid with the given origins and extent.
    pub fn new(screen_pos: Point, pos: Point, width: i32, height: i32) -> (r: TileGrid)
        requires
            1 <= width <= 0x8000,
            1 <= height <= 0x8000,
            -0x10_0000 <= screen_pos.x <= 0x10_0000,
            -0x10_0000 <= screen_pos.y <= 0x10_0000,
            -0x10_0000 <= pos.x <= 0x10_0000,
            -0x10_0000 <= pos.y <= 0x10_0000,
        ensures
            r.screen_pos == screen_pos,
            r.pos == pos,
            r.width == width,
            r.height == height,
            grid_wf(r),
    {
        TileGrid { screen_pos, pos, width, height }
    }

    /// Number of tiles.
    pub fn len(&self) -> (r: usize)
        requires
            grid_wf(*self),
        ensures
            r == self.width * self.height,
    {
        proof {
            assert(1 <= self.width * self.height <= 0x4000_0000) by (nonlinear_arith)
                requires 1 <= self.width <= 0x8000, 1 <= self.height <= 0x8000,
            {}
        }
        (self.width * self.height) as usize
    }

    pub fn screen_pos(&self) -> (r: Point)
        ensures
            r == self.screen_pos,
    {
        self.screen_pos
    }

    /// Mutable access to the screen origin.
    pub fn screen_pos_mut(&mut self) -> (r: &mut Point)
        ensures
            *final(self) == (TileGrid { screen_pos: *final(r), ..*old(self) }),
    {
        &mut self.screen_pos
    }

    pub fn set_screen_pos(&mut self, pos: Point)
        requires
            -0x10_0000 <= pos.x <= 0x10_0000,
            -0x10_0000 <= pos.y <= 0x10_0000,
        ensures
            *final(self) == (TileGrid { screen_pos: pos, ..*old(self) }),
    {
        self.screen_pos = pos;
    }

    pub fn pos(&self) -> (r: Point)
        ensures
            r == self.pos,
    {
        self.pos
    }

    pub fn set_pos(&mut self, pos: Point)
        requires
            -0x10_0000 <= pos.x <= 0x10_0000,
            -0x10_0000 <= pos.y <= 0x10_0000,
        ensures
            *final(self) == (TileGrid { pos: pos, ..*old(self) }),
    {
        self.pos = pos;
    }

    pub fn width(&self) -> (r: i32)
        ensures
            r == self.width,
    {
        self.width
    }

    pub fn height(&self) -> (r: i32)
        ensures
            r == self.height,
    {
        self.height
    }

    /// Whether `p` lies on the grid's outermost ring of tiles.
    pub fn is_on_edge(&self, p: Point) -> (r: bool)
        requires
            grid_wf(*self),
        ensures
            r == (p.x == 0 || p.x == self.width - 1 || p.y == 0 || p.y == self.height - 1),
    {
        p.x == 0 || p.x == self.width - 1 || p.y == 0 || p.y == self.height - 1
    }

    /// Whether tile `p` lies on the grid.
    pub fn is_in_bounds(&self, p: Point) -> (r: bool)
        ensures
            r == in_bounds_spec(*self, p.x as int, p.y as int),
    {
        p.x >= 0 && p.x < self.width && p.y >= 0 && p.y < self.height
    }

    /// `p` with both coordinates clamped onto the grid.
    pub fn clip(&self, p: Point) -> (r: Point)
        requires
            grid_wf(*self),
        ensures
            r.x == if p.x < 0 { 0int } else if p.x > self.width - 1 { self.width - 1 } else { p.x as int },
            r.y == if p.y < 0 { 0int } else if p.y > self.height - 1 { self.height - 1 } else { p.y as int },
    {
        let x = if p.x < 0 { 0 } else if p.x > self.width - 1 { self.width - 1 } else { p.x };
        let y = if p.y < 0 { 0 } else if p.y > self.height - 1 { self.height - 1 } else { p.y };
        Point { x, y }
    }

    /// Screen position of the top-left of tile `p`'s bounding box.
    pub fn to_screen(&self, p: Point) -> (r: Point)
        requires
            grid_wf(*self),
            -PT_LIMIT <= p.x <= PT_LIMIT,
            -PT_LIMIT <= p.y <= PT_LIMIT,
        ensures
            r.x == to_screen_spec(*self, p.x as int, p.y as int).0,
            r.y == to_screen_spec(*self, p.x as int, p.y as int).1,
    {
        let mut rx = self.screen_pos.x;
        let mut ry = self.screen_pos.y;
        let dx = (p.x - self.pos.x) / 2;
        proof {
            assert(dx == tdiv(p.x - self.pos.x, 2));
        }
        rx = rx + 48 * dx;
        ry = ry + 12 * (-dx);
        if p.x % 2 != 0 {
            proof {
                assert(tmod(p.x as int, 2) != 0);
            }
            if p.x <= self.pos.x {
                rx = rx - 16;
                ry = ry + 12;
            } else {
                rx = rx + 32;
            }
        } else {
            proof {
                assert(tmod(p.x as int, 2) == 0);
            }
        }
        let dy = p.y - self.pos.y;
        rx = rx + 16 * dy;
        ry = ry + 12 * dy;
        Point { x: rx, y: ry }
    }

    /// The tile whose hexagon contains pixel `p`. Total; the result may be
    /// out of bounds.
    pub fn from_screen(&self, p: Point) -> (r: Point)
        requires
            grid_wf(*self),
            -SCREEN_LIMIT <= p.x <= SCREEN_LIMIT,
            -SCREEN_LIMIT <= p.y <= SCREEN_LIMIT,
        ensures
            r.x == from_screen_spec(*self, p.x as int, p.y as int).0,
            r.y == from_screen_spec(*self, p.x as int, p.y as int).1,
    {
        let abs_screen_y = p.y - self.screen_pos.y;

        // 12 is the vertical hex advance; floor division.
        let mut tile_y = if abs_screen_y >= 0 {
            abs_screen_y / 12
        } else {
            (abs_screen_y + 1) / 12 - 1
        };
        proof {
            assert(tile_y == (p.y - self.screen_pos.y) as int / 12) by {
                lemma_floor_div_branches(abs_screen_y as int, 12);
            }
        }

        // 16 is the horizontal hex advance.
        let screen_x_in_tile_hrow = p.x - self.screen_pos.x - 16 * tile_y;

        let screen_y_in_tile = abs_screen_y - 12 * tile_y;
        proof {
            vstd::arithmetic::div_mod::lemma_fundamental_div_mod(abs_screen_y as int, 12);
            vstd::arithmetic::div_mod::lemma_mod_bound(abs_screen_y as int, 12);
        }

        let tile_hx = if screen_x_in_tile_hrow >= 0 {
            screen_x_in_tile_hrow / 64
        } else {
            (screen_x_in_tile_hrow + 1) / 64 - 1
        };
        proof {
            assert(tile_hx == screen_x_in_tile_hrow as int / 64) by {
                lemma_floor_div_branches(screen_x_in_tile_hrow as int, 64);
            }
            vstd::arithmetic::div_mod::lemma_fundamental_div_mod(screen_x_in_tile_hrow as int, 64);
            vstd::arithmetic::div_mod::lemma_mod_bound(screen_x_in_tile_hrow as int, 64);
        }

        tile_y = tile_y + tile_hx;
        let mut screen_x_in_tile = screen_x_in_tile_hrow - tile_hx * 64;
        let mut tile_x = 2 * tile_hx;
        if screen_x_in_tile >= 32 {
            screen_x_in_tile = screen_x_in_tile - 32;
            tile_x = tile_x + 1;
        }
        tile_x = tile_x + self.pos.x;
        tile_y = tile_y + self.pos.y;

        match tile_hit_test(Point { x: screen_x_in_tile, y: screen_y_in_tile }) {
            TileHit::TopRight => {
                tile_x = tile_x + 1;
                if tile_x % 2 == 1 {
                    tile_y = tile_y - 1;
                }
            },
            TileHit::TopLeft => {
                tile_y = tile_y - 1;
            },
            TileHit::BottomLeft => {
                tile_x = tile_x - 1;
                if tile_x % 2 == 0 {
                    tile_y = tile_y + 1;
                }
            },
            TileHit::BottomRight => {
                tile_y = tile_y + 1;
            },
            TileHit::Inside => {},
        }

        Point { x: tile_x, y: tile_y }
    }

    /// `n` unbounded steps from `p` in direction `d`; the result is in
    /// bounds, or none.
    pub fn go(&self, p: Point, direction: Direction, distance: u32) -> (r: Option<Point>)
        requires
            -PT_LIMIT <= p.x <= PT_LIMIT,
            -PT_LIMIT <= p.y <= PT_LIMIT,
            distance <= WALK_FUEL,
        ensures
            ({
                let q = go_n(p.x as int, p.y as int, direction, distance as nat);
                if in_bounds_spec(*self, q.0, q.1) {
                    r matches Some(rp) && rp.x == q.0 && rp.y == q.1
                } else {
                    r is None
                }
            }),
    {
        let q = self.go_unbounded(p, direction, distance);
        if self.is_in_bounds(q) {
            Some(q)
        } else {
            None
        }
    }

    /// `n` unbounded steps from `p` in direction `d`; may leave the grid.
    pub fn go_unbounded(&self, p: Point, direction: Direction, distance: u32) -> (r: Point)
        requires
            -PT_LIMIT <= p.x <= PT_LIMIT,
            -PT_LIMIT <= p.y <= PT_LIMIT,
            distance <= WALK_FUEL,
        ensures
            r.x == go_n(p.x as int, p.y as int, direction, distance as nat).0,
            r.y == go_n(p.x as int, p.y as int, direction, distance as nat).1,
            -PT_LIMIT - WALK_FUEL <= r.x <= PT_LIMIT + WALK_FUEL,
            -PT_LIMIT - WALK_FUEL <= r.y <= PT_LIMIT + WALK_FUEL,
    {
        let mut x = p.x;
        let mut y = p.y;
        let mut i: u32 = 0;
        while i < distance
            invariant
                0 <= i <= distance,
                distance <= WALK_FUEL,
                -PT_LIMIT <= p.x <= PT_LIMIT,
                -PT_LIMIT <= p.y <= PT_LIMIT,
                -PT_LIMIT - i <= x <= PT_LIMIT + i,
                -PT_LIMIT - i <= y <= PT_LIMIT + i,
                (x as int, y as int) == go_n(p.x as int, p.y as int, direction, i as nat),
            decreases distance - i,
        {
            proof {
                lemma_go_n_unfold(p.x as int, p.y as int, direction, (i + 1) as nat);
            }
            let q = step_once(x, y, direction);
            x = q.x;
            y = q.y;
            i = i + 1;
        }
        Point { x, y }
    }

    /// `n` steps from `p` in direction `d`, stopping at the last in-bounds
    /// tile.
    pub fn go_clipped(&self, p: Point, direction: Direction, distance: u32) -> (r: Point)
        requires
            -PT_LIMIT <= p.x <= PT_LIMIT,
            -PT_LIMIT <= p.y <= PT_LIMIT,
            distance <= WALK_FUEL,
        ensures
            r.x == go_clipped_n(*self, p.x as int, p.y as int, direction, distance as nat).0,
            r.y == go_clipped_n(*self, p.x as int, p.y as int, direction, distance as nat).1,
    {
        let mut x = p.x;
        let mut y = p.y;
        let mut i: u32 = 0;
        let mut done = false;
        while i < distance && !done
            invariant
                0 <= i <= distance,
                distance <= WALK_FUEL,
                -PT_LIMIT <= p.x <= PT_LIMIT,
                -PT_LIMIT <= p.y <= PT_LIMIT,
                -PT_LIMIT - i <= x <= PT_LIMIT + i,
                -PT_LIMIT - i <= y <= PT_LIMIT + i,
                !done ==> (x as int, y as int) == go_clipped_n(
                    *self, p.x as int, p.y as int, direction, i as nat),
                done ==> (x as int, y as int) == go_clipped_n(
                    *self, p.x as int, p.y as int, direction, distance as nat),
            decreases distance - i, (if done { 0int } else { 1 }),
        {
            let q = step_once(x, y, direction);
            if !self.is_in_bounds(q) {
                proof {
                    lemma_go_clipped_stuck(
                        *self, p.x as int, p.y as int, x as int, y as int,
                        direction, i as nat, distance as nat);
                }
                done = true;
            } else {
                proof {
                    lemma_go_clipped_unfold(
                        *self, p.x as int, p.y as int, direction, (i + 1) as nat);
                }
                x = q.x;
                y = q.y;
                i = i + 1;
            }
        }
        Point { x, y }
    }
}

/// One exec neighbour step.
fn step_once(x: i32, y: i32, d: Direction) -> (r: Point)
    requires
        i32::MIN < x < i32::MAX,
        i32::MIN < y < i32::MAX,
    ensures
        r.x == hex_step(x as int, y as int, d).0,
        r.y == hex_step(x as int, y as int, d).1,
{
    let even = x % 2 == 0;
    let (ax, ay): (i32, i32) = if even {
        match d {
            Direction::NE => (1, -1),
            Direction::E => (1, 0),
            Direction::SE => (0, 1),
            Direction::SW => (-1, 0),
            Direction::W => (-1, -1),
            Direction::NW => (0, -1),
        }
    } else {
        match d {
            Direction::NE => (1, 0),
            Direction::E => (1, 1),
            Direction::SE => (0, 1),
            Direction::SW => (-1, 1),
            Direction::W => (-1, 0),
            Direction::NW => (0, -1),
        }
    };
    Point { x: x + ax, y: y + ay }
}

/// The two-branch floor division the conversions use agrees with the
/// mathematical floor division.
proof fn lemma_floor_div_branches(a: int, b: int)
    requires
        b > 0,
    ensures
        a >= 0 ==> a / b == a / b,
        a < 0 ==> (if a + 1 >= 0 { (a + 1) / b } else { -((-(a + 1)) / b) }) - 1 == a / b,
{
    if a < 0 {
        let n = -(a + 1);
        assert(n >= 0);
        vstd::arithmetic::div_mod::lemma_fundamental_div_mod(n, b);
        vstd::arithmetic::div_mod::lemma_mod_bound(n, b);
        vstd::arithmetic::div_mod::lemma_fundamental_div_mod(a, b);
        vstd::arithmetic::div_mod::lemma_mod_bound(a, b);
        let q = n / b;
        let r = n % b;
        // a = -n - 1 = -(q b + r) - 1 = (-q - 1) b + (b - r - 1)
        assert(a == (-q - 1) * b + (b - r - 1)) by (nonlinear_arith)
            requires n == b * q + r, a == -n - 1,
        {}
        assert(0 <= b - r - 1 < b);
        vstd::arithmetic::div_mod::lemma_fundamental_div_mod_converse(a, b, -q - 1, b - r - 1);
    }
}

proof fn lemma_go_n_unfold(x: int, y: int, d: Direction, n: nat)
    requires
        n >= 1,
    ensures
        go_n(x, y, d, n) == {
            let q = go_n(x, y, d, (n - 1) as nat);
            hex_step(q.0, q.1, d)
        },
    decreases n,
{
    if n == 1 {
        assert(go_n(x, y, d, 0) == (x, y));
        let q = hex_step(x, y, d);
        assert(go_n(x, y, d, 1) == go_n(q.0, q.1, d, 0));
    } else {
        let q = hex_step(x, y, d);
        lemma_go_n_unfold(q.0, q.1, d, (n - 1) as nat);
        assert(go_n(x, y, d, n) == go_n(q.0, q.1, d, (n - 1) as nat));
        assert(go_n(x, y, d, (n - 1) as nat) == go_n(q.0, q.1, d, (n - 2) as nat));
    }
}

proof fn lemma_go_clipped_unfold(g: TileGrid, x: int, y: int, d: Direction, n: nat)
    requires
        n >= 1,
        ({
            let q = go_clipped_n(g, x, y, d, (n - 1) as nat);
            in_bounds_spec(g, hex_step(q.0, q.1, d).0, hex_step(q.0, q.1, d).1)
        }),
    ensures
        go_clipped_n(g, x, y, d, n) == {
            let q = go_clipped_n(g, x, y, d, (n - 1) as nat);
            hex_step(q.0, q.1, d)
        },
    decreases n,
{
    if n == 1 {
        assert(go_clipped_n(g, x, y, d, 0) == (x, y));
        let q = hex_step(x, y, d);
        assert(in_bounds_spec(g, q.0, q.1));
        assert(go_clipped_n(g, x, y, d, 1) == go_clipped_n(g, q.0, q.1, d, 0));
    } else {
        let q = hex_step(x, y, d);
        if in_bounds_spec(g, q.0, q.1) {
            lemma_go_clipped_unfold(g, q.0, q.1, d, (n - 1) as nat);
            assert(go_clipped_n(g, x, y, d, n) == go_clipped_n(g, q.0, q.1, d, (n - 1) as nat));
            assert(go_clipped_n(g, x, y, d, (n - 1) as nat) == go_clipped_n(g, q.0, q.1, d, (n - 2) as nat));
        } else {
            assert(go_clipped_n(g, x, y, d, (n - 1) as nat) == (x, y));
            assert(go_clipped_n(g, x, y, d, n) == (x, y));
        }
    }
}

/// Once the next clipped step would leave the grid, more fuel changes
/// nothing.
proof fn lemma_go_clipped_stuck(g: TileGrid, x0: int, y0: int, x: int, y: int, d: Direction, i: nat, n: nat)
    requires
        i <= n,
        (x, y) == go_clipped_n(g, x0, y0, d, i),
        !in_bounds_spec(g, hex_step(x, y, d).0, hex_step(x, y, d).1),
    ensures
        go_clipped_n(g, x0, y0, d, n) == (x, y),
    decreases i,
{
    if i == 0 {
        assert((x, y) == (x0, y0));
        if n > 0 {
            assert(!in_bounds_spec(g, hex_step(x0, y0, d).0, hex_step(x0, y0, d).1));
            assert(go_clipped_n(g, x0, y0, d, n) == (x0, y0));
        }
    } else {
        let q = hex_step(x0, y0, d);
        if !in_bounds_spec(g, q.0, q.1) {
            assert(go_clipped_n(g, x0, y0, d, i) == (x0, y0));
            assert(go_clipped_n(g, x0, y0, d, n) == (x0, y0));
        } else {
            lemma_go_clipped_stuck(g, q.0, q.1, x, y, d, (i - 1) as nat, (n - 1) as nat);
        }
    }
}

} // verus!

verus! {

/// Lower rational bracket of the tangent of 31 degrees: a continued-fraction
/// convergent tight enough that no slope of two distinct grid points lies
/// between it and the true tangent.
pub const T31_NUM: i64 = 1319153411;
pub const T31_DEN: i64 = 2195439956;

/// Lower rational bracket of the tangent of 29 degrees, likewise tight.
pub const T29_NUM: i64 = 361053251;
pub const T29_DEN: i64 = 651357307;

/// Lower rational bracket of the cotangent of 1 degree, likewise tight.
pub const C1_NUM: i64 = 214484438551;
pub const C1_DEN: i64 = 3743839801;

/// The hex direction whose 60-degree screen-space sector contains the vector
/// `(v, -u)` (so `u` grows upward). The sector boundaries sit at 31, 91 and
/// 151 degrees and at -30, -90 and -150 degrees, measuring the angle of
/// `(v, u)` counterclockwise from the positive x axis; the asymmetry comes
/// from truncating the angle to a whole number of degrees before binning.
pub open spec fn dir_sector(u: int, v: int) -> Direction {
    if v == 0 {
        if u > 0 { Direction::NE } else { Direction::SE }
    } else if v > 0 {
        if u >= 0 {
            if u * T31_DEN > v * T31_NUM { Direction::NE } else { Direction::E }
        } else {
            if 3 * u * u > v * v { Direction::SE } else { Direction::E }
        }
    } else {
        if u > 0 {
            if u * C1_DEN > (-v) * C1_NUM { Direction::NE }
            else if u * T29_DEN > (-v) * T29_NUM { Direction::NW }
            else { Direction::W }
        } else if u == 0 {
            Direction::W
        } else {
            if 3 * u * u > v * v { Direction::SW } else { Direction::W }
        }
    }
}

/// The direction of the screen-space displacement from `from` to `to`.
pub open spec fn direction_spec(g: TileGrid, fx: int, fy: int, tx: int, ty: int) -> Direction {
    let fs = to_screen_spec(g, fx, fy);
    let ts = to_screen_spec(g, tx, ty);
    dir_sector(-(ts.1 - fs.1), ts.0 - fs.0)
}

/// One greedy step of the `distance` walk, then recurse; gives up (counting
/// no further) when the fuel runs out.
pub open spec fn dist_walk(g: TileGrid, px: int, py: int, qx: int, qy: int, fuel: nat) -> int
    decreases fuel,
{
    if px == qx && py == qy {
        0
    } else if fuel == 0 {
        0
    } else {
        let d = direction_spec(g, px, py, qx, qy);
        let n = hex_step(px, py, d);
        1 + dist_walk(g, n.0, n.1, qx, qy, (fuel - 1) as nat)
    }
}

/// The truncating remainder agrees with `tmod`, and bounds it.
pub proof fn lemma_trunc_rem(a: int, b: int)
    requires
        b > 0,
    ensures
        a >= 0 ==> tmod(a, b) == a % b && 0 <= tmod(a, b) < b,
        a < 0 ==> tmod(a, b) == -((-a) % b) && -b < tmod(a, b) <= 0,
{
    if a >= 0 {
        vstd::arithmetic::div_mod::lemma_fundamental_div_mod(a, b);
        vstd::arithmetic::div_mod::lemma_mod_bound(a, b);
    } else {
        let n = -a;
        vstd::arithmetic::div_mod::lemma_fundamental_div_mod(n, b);
        vstd::arithmetic::div_mod::lemma_mod_bound(n, b);
        assert(b * (-(n / b)) == -(b * (n / b))) by (nonlinear_arith);
    }
}

/// A greedy walk never counts more steps than it has fuel.
proof fn lemma_dist_walk_le_fuel(g: TileGrid, px: int, py: int, qx: int, qy: int, fuel: nat)
    ensures
        0 <= dist_walk(g, px, py, qx, qy, fuel) <= fuel,
    decreases fuel,
{
    if !(px == qx && py == qy) && fuel > 0 {
        let d = direction_spec(g, px, py, qx, qy);
        let n = hex_step(px, py, d);
        lemma_dist_walk_le_fuel(g, n.0, n.1, qx, qy, (fuel - 1) as nat);
    }
}

/// Exact comparison `a * b > c * d` for operands that fit comfortably in
/// 128-bit intermediates.
fn mul_cmp(a: i64, b: i64, c: i64, d: i64) -> (r: bool)
    requires
        -0x8_0000_0000 <= a <= 0x8_0000_0000,
        -0x8_0000_0000 <= c <= 0x8_0000_0000,
        0 <= b <= 0x80_0000_0000,
        0 <= d <= 0x80_0000_0000,
    ensures
        r == (a * b > c * d),
{
    proof {
        assert(-0x400_0000_0000_0000_0000 <= (a as i128) * (b as i128) <= 0x400_0000_0000_0000_0000
            && -0x400_0000_0000_0000_0000 <= (c as i128) * (d as i128) <= 0x400_0000_0000_0000_0000)
            by (nonlinear_arith)
            requires
                -0x8_0000_0000 <= a as i128 <= 0x8_0000_0000,
                -0x8_0000_0000 <= c as i128 <= 0x8_0000_0000,
                0 <= b as i128 <= 0x80_0000_0000,
                0 <= d as i128 <= 0x80_0000_0000,
        {}
    }
    let p1: i128 = (a as i128) * (b as i128);
    let p2: i128 = (c as i128) * (d as i128);
    p1 > p2
}

/// Exact comparison `3 u^2 > v^2` for operands that fit comfortably in
/// 128-bit intermediates.
fn sq_cmp3(u: i64, v: i64) -> (r: bool)
    requires
        -0x8_0000_0000 <= u <= 0x8_0000_0000,
        -0x8_0000_0000 <= v <= 0x8_0000_0000,
    ensures
        r == (3 * u * u > v * v),
{
    let uu: i128 = u as i128;
    let vv: i128 = v as i128;
    proof {
        assert(0 <= uu * uu <= 0x40_0000_0000_0000_0000
            && 0 <= vv * vv <= 0x40_0000_0000_0000_0000
            && 3 * (uu * uu) == 3 * uu * uu) by (nonlinear_arith)
            requires
                -0x8_0000_0000 <= uu <= 0x8_0000_0000,
                -0x8_0000_0000 <= vv <= 0x8_0000_0000,
        {}
    }
    3 * (uu * uu) > vv * vv
}

impl TileGrid {
    /// The direction in which `to` lies as seen from `from`, by the
    /// screen-space angle between them. The two tiles must differ.
    pub fn direction(&self, from: Point, to: Point) -> (r: Direction)
        requires
            grid_wf(*self),
            from != to,
            -PT_LIMIT <= from.x <= PT_LIMIT,
            -PT_LIMIT <= from.y <= PT_LIMIT,
            -PT_LIMIT <= to.x <= PT_LIMIT,
            -PT_LIMIT <= to.y <= PT_LIMIT,
        ensures
            r == direction_spec(*self, from.x as int, from.y as int, to.x as int, to.y as int),
    {
        let fs = self.to_screen(from);
        let ts = self.to_screen(to);
        let u: i64 = -((ts.y as i64) - (fs.y as i64));
        let v: i64 = (ts.x as i64) - (fs.x as i64);
        if v == 0 {
            if u > 0 { Direction::NE } else { Direction::SE }
        } else if v > 0 {
            if u >= 0 {
                if mul_cmp(u, T31_DEN, v, T31_NUM) { Direction::NE } else { Direction::E }
            } else {
                if sq_cmp3(u, v) { Direction::SE } else { Direction::E }
            }
        } else {
            if u > 0 {
                if mul_cmp(u, C1_DEN, -v, C1_NUM) {
                    Direction::NE
                } else if mul_cmp(u, T29_DEN, -v, T29_NUM) {
                    Direction::NW
                } else {
                    Direction::W
                }
            } else if u == 0 {
                Direction::W
            } else {
                if sq_cmp3(u, v) { Direction::SW } else { Direction::W }
            }
        }
    }

    /// Number of greedy steps that walk `p1` onto `p2`, stepping once in
    /// `direction(p1, p2)` at a time.
    pub fn distance(&self, p1: Point, p2: Point) -> (r: i32)
        requires
            grid_wf(*self),
            -0x10_0000 <= p1.x <= 0x10_0000,
            -0x10_0000 <= p1.y <= 0x10_0000,
            -0x10_0000 <= p2.x <= 0x10_0000,
            -0x10_0000 <= p2.y <= 0x10_0000,
        ensures
            r == dist_walk(*self, p1.x as int, p1.y as int, p2.x as int, p2.y as int,
                WALK_FUEL as nat),
            p1 == p2 ==> r == 0,
    {
        let mut x = p1.x;
        let mut y = p1.y;
        let mut n: u32 = 0;
        let ghost total = dist_walk(*self, p1.x as int, p1.y as int, p2.x as int, p2.y as int,
            WALK_FUEL as nat);
        proof {
            lemma_dist_walk_le_fuel(*self, p1.x as int, p1.y as int, p2.x as int, p2.y as int,
                WALK_FUEL as nat);
        }
        while (x != p2.x || y != p2.y) && n < WALK_FUEL
            invariant
                grid_wf(*self),
                0 <= n <= WALK_FUEL,
                -0x10_0000 <= p2.x <= 0x10_0000,
                -0x10_0000 <= p2.y <= 0x10_0000,
                -0x10_0000 - n <= x <= 0x10_0000 + n,
                -0x10_0000 - n <= y <= 0x10_0000 + n,
                total == n + dist_walk(*self, x as int, y as int, p2.x as int, p2.y as int,
                    (WALK_FUEL - n) as nat),
                total <= WALK_FUEL,
            decreases WALK_FUEL - n,
        {
            let d = self.direction(Point { x, y }, p2);
            let q = step_once(x, y, d);
            x = q.x;
            y = q.y;
            n = n + 1;
        }
        proof {
            assert(dist_walk(*self, x as int, y as int, p2.x as int, p2.y as int,
                (WALK_FUEL - n) as nat) == 0);
        }
        n as i32
    }

    /// Whether `p1` is in front of `p2`, looking SE: a half-plane test on
    /// their screen positions.
    pub fn is_in_front_of(&self, p1: Point, p2: Point) -> (r: bool)
        requires
            grid_wf(*self),
            -PT_LIMIT <= p1.x <= PT_LIMIT,
            -PT_LIMIT <= p1.y <= PT_LIMIT,
            -PT_LIMIT <= p2.x <= PT_LIMIT,
            -PT_LIMIT <= p2.y <= PT_LIMIT,
        ensures
            r == ({
                let s1 = to_screen_spec(*self, p1.x as int, p1.y as int);
                let s2 = to_screen_spec(*self, p2.x as int, p2.y as int);
                s2.0 - s1.0 <= (s2.1 - s1.1) * -4
            }),
    {
        let sp1 = self.to_screen(p1);
        let sp2 = self.to_screen(p2);
        let lhs: i64 = (sp2.x as i64) - (sp1.x as i64);
        let dy: i64 = (sp2.y as i64) - (sp1.y as i64);
        proof {
            assert(-0x1_0000_0000 <= dy <= 0x1_0000_0000);
        }
        lhs <= dy * (-4)
    }

    /// Whether `p1` is to the right of `p2`, looking SE: a half-plane test
    /// on their screen positions.
    pub fn is_to_right_of(&self, p1: Point, p2: Point) -> (r: bool)
        requires
            grid_wf(*self),
            -PT_LIMIT <= p1.x <= PT_LIMIT,
            -PT_LIMIT <= p1.y <= PT_LIMIT,
            -PT_LIMIT <= p2.x <= PT_LIMIT,
            -PT_LIMIT <= p2.y <= PT_LIMIT,
        ensures
            r == ({
                let s1 = to_screen_spec(*self, p1.x as int, p1.y as int);
                let s2 = to_screen_spec(*self, p2.x as int, p2.y as int);
                s1.0 - s2.0 <= tdiv((s1.1 - s2.1) * 32, 24)
            }),
    {
        let sp1 = self.to_screen(p1);
        let sp2 = self.to_screen(p2);
        let lhs: i64 = (sp1.x as i64) - (sp2.x as i64);
        let prod: i64 = ((sp1.y as i64) - (sp2.y as i64)) * 32;
        let rhs: i64 = prod / 24;
        proof {
            assert(rhs == tdiv(prod as int, 24));
        }
        lhs <= rhs
    }

    /// Linear to rectangular coordinates (x axis not mirrored).
    pub fn from_linear(&self, num: i32) -> (r: Point)
        requires
            grid_wf(*self),
        ensures
            r.x == tmod(num as int, self.width as int),
            r.y == tdiv(num as int, self.width as int),
    {
        let x = num % self.width;
        let y = num / self.width;
        proof {
            lemma_trunc_rem(num as int, self.width as int);
        }
        Point { x, y }
    }

    /// Rectangular to linear coordinates (x axis not mirrored): row-major
    /// index of an in-bounds tile, none otherwise.
    pub fn to_linear(&self, p: Point) -> (r: Option<i32>)
        requires
            grid_wf(*self),
        ensures
            in_bounds_spec(*self, p.x as int, p.y as int) ==> (
                r matches Some(n)
                && n == self.width * p.y + p.x
                && 0 <= n < self.width * self.height),
            !in_bounds_spec(*self, p.x as int, p.y as int) ==> r is None,
    {
        if self.is_in_bounds(p) {
            proof {
                assert(0 <= self.width * p.y + p.x < self.width * self.height
                        && self.width * self.height <= 0x4000_0000
                        && 0 <= self.width * p.y <= 0x4000_0000) by (nonlinear_arith)
                    requires
                        0 <= p.x < self.width,
                        0 <= p.y < self.height,
                        1 <= self.width <= 0x8000,
                        1 <= self.height <= 0x8000,
                {}
            }
            Some(self.width * p.y + p.x)
        } else {
            None
        }
    }

    /// Rectangular to linear coordinates with the x axis mirrored, the
    /// convention of the legacy asset format.
    pub fn to_linear_inv(&self, p: Point) -> (r: Option<i32>)
        requires
            grid_wf(*self),
        ensures
            in_bounds_spec(*self, p.x as int, p.y as int) ==> (
                r matches Some(n)
                && n == self.width * p.y + (self.width - 1 - p.x)
                && 0 <= n < self.width * self.height),
            !in_bounds_spec(*self, p.x as int, p.y as int) ==> r is None,
    {
        if self.is_in_bounds(p) {
            let x = self.width - 1 - p.x;
            proof {
                assert(0 <= self.width * p.y + x < self.width * self.height
                        && self.width * self.height <= 0x4000_0000
                        && 0 <= self.width * p.y <= 0x4000_0000) by (nonlinear_arith)
                    requires
                        x == self.width - 1 - p.x,
                        0 <= p.x < self.width,
                        0 <= p.y < self.height,
                        1 <= self.width <= 0x8000,
                        1 <= self.height <= 0x8000,
                {}
            }
            Some(self.width * p.y + x)
        } else {
            None
        }
    }

    /// Linear to rectangular coordinates with the x axis mirrored.
    pub fn from_linear_inv(&self, num: i32) -> (r: Point)
        requires
            grid_wf(*self),
        ensures
            r.x == self.width - 1 - tmod(num as int, self.width as int),
            r.y == tdiv(num as int, self.width as int),
    {
        let m = num % self.width;
        let x = self.width - 1 - m;
        let y = num / self.width;
        proof {
            lemma_trunc_rem(num as int, self.width as int);
            assert(-(self.width as int) < m <= 0 || 0 <= m < self.width);
        }
        Point { x, y }
    }
}

impl Default for TileGrid {
    /// A 200 by 200 grid with both origins at zero.
    fn default() -> (r: TileGrid)
        ensures
            r.screen_pos == (Point { x: 0, y: 0 }),
            r.pos == (Point { x: 0, y: 0 }),
            r.width == 200,
            r.height == 200,
            grid_wf(r),
    {
        TileGrid {
            screen_pos: Point { x: 0, y: 0 },
            pos: Point { x: 0, y: 0 },
            width: 200,
            height: 200,
        }
    }
}

} // verus!

verus! {

/// The state of one `beyond` walk step: current tile, pixel cursor and
/// error term. `xdom` tells which axis the cursor advances along; in the
/// x-dominant branch both the regular and the error-triggered advance move
/// the cursor's y coordinate, which reproduces the reference trajectories.
pub open spec fn beyond_walk(
    g: TileGrid, cx: int, cy: int, sx: int, sy: int, j: int, dist_left: int,
    xdom: bool, x_inc: int, y_inc: int, adx2: int, ady2: int, fuel: nat,
) -> (int, int)
    decreases fuel,
{
    if fuel == 0 {
        (cx, cy)
    } else {
        let nxt = from_screen_spec(g, sx, sy);
        if nxt != (cx, cy) && (dist_left == 1 || !in_bounds_spec(g, nxt.0, nxt.1)) {
            (cx, cy)
        } else {
            let cx1 = if nxt == (cx, cy) { cx } else { nxt.0 };
            let cy1 = if nxt == (cx, cy) { cy } else { nxt.1 };
            let dl1 = if nxt == (cx, cy) { dist_left } else { dist_left - 1 };
            if xdom {
                let sy1 = if j >= 0 { sy + y_inc + x_inc } else { sy + x_inc };
                let j1 = if j >= 0 { j - adx2 + ady2 } else { j + ady2 };
                beyond_walk(g, cx1, cy1, sx, sy1, j1, dl1, xdom, x_inc, y_inc, adx2, ady2,
                    (fuel - 1) as nat)
            } else {
                let sx1 = if j >= 0 { sx + x_inc } else { sx };
                let sy1 = sy + y_inc;
                let j1 = if j >= 0 { j - ady2 + adx2 } else { j + adx2 };
                beyond_walk(g, cx1, cy1, sx1, sy1, j1, dl1, xdom, x_inc, y_inc, adx2, ady2,
                    (fuel - 1) as nat)
            }
        }
    }
}

impl TileGrid {
    /// The tile reached by walking `distance` tiles from `from` along the
    /// discrete pixel line toward `to`, stopping one tile short of leaving
    /// the grid; `distance == 0` gives `from` back.
    #[verifier::loop_isolation(false)]
    #[verifier::rlimit(80)]
    pub fn beyond(&self, from: Point, to: Point, distance: i32) -> (r: Point)
        requires
            grid_wf(*self),
            distance >= 0,
            -0x10_0000 <= from.x <= 0x10_0000,
            -0x10_0000 <= from.y <= 0x10_0000,
            -0x10_0000 <= to.x <= 0x10_0000,
            -0x10_0000 <= to.y <= 0x10_0000,
        ensures
            distance == 0 ==> r == from,
            distance > 0 ==> ({
                let fs = to_screen_spec(*self, from.x as int, from.y as int);
                let ts = to_screen_spec(*self, to.x as int, to.y as int);
                let dx = ts.0 - fs.0;
                let dy = ts.1 - fs.1;
                let adx2 = 2 * (if dx < 0 { -dx } else { dx });
                let ady2 = 2 * (if dy < 0 { -dy } else { dy });
                let xdom = adx2 > ady2;
                let j0 = if xdom { ady2 - adx2 / 2 } else { adx2 - ady2 / 2 };
                (r.x as int, r.y as int) == beyond_walk(
                    *self, from.x as int, from.y as int, fs.0 + 16, fs.1 + 18, j0,
                    distance as int, xdom,
                    crate::point::sign_i32(dx), crate::point::sign_i32(dy),
                    adx2, ady2, WALK_FUEL as nat)
            }),
    {
        if distance == 0 {
            return from;
        }

        let fs = self.to_screen(from);
        let ts = self.to_screen(to);
        let fsx = fs.x + 16;
        let fsy = fs.y + 18;

        let delta_x = ts.x - fs.x;
        let abs_dx = if delta_x < 0 { -delta_x } else { delta_x };
        let adx2 = 2 * abs_dx;
        let x_inc: i32 = if delta_x < 0 { -1 } else if delta_x > 0 { 1 } else { 0 };

        let delta_y = ts.y - fs.y;
        let abs_dy = if delta_y < 0 { -delta_y } else { delta_y };
        let ady2 = 2 * abs_dy;
        let y_inc: i32 = if delta_y < 0 { -1 } else if delta_y > 0 { 1 } else { 0 };

        let xdom = adx2 > ady2;
        let mut j: i32 = if xdom { ady2 - adx2 / 2 } else { adx2 - ady2 / 2 };
        proof {
            assert(adx2 / 2 == adx2 as int / 2);
            assert(ady2 / 2 == ady2 as int / 2);
        }

        let mut cx = from.x;
        let mut cy = from.y;
        let mut sx = fsx;
        let mut sy = fsy;
        let mut dist_left = distance;
        let mut fuel: u32 = WALK_FUEL;
        proof {
            lemma_to_screen_small(*self, from.x as int, from.y as int);
            lemma_to_screen_small(*self, to.x as int, to.y as int);
        }

        proof {
            let fs0 = to_screen_spec(*self, from.x as int, from.y as int);
            let ts0 = to_screen_spec(*self, to.x as int, to.y as int);
            let dx0 = ts0.0 - fs0.0;
            let dy0 = ts0.1 - fs0.1;
            assert(fsx as int == fs0.0 + 16);
            assert(fsy as int == fs0.1 + 18);
            assert(x_inc as int == crate::point::sign_i32(dx0));
            assert(y_inc as int == crate::point::sign_i32(dy0));
            assert(adx2 as int == 2 * (if dx0 < 0 { -dx0 } else { dx0 }));
            assert(ady2 as int == 2 * (if dy0 < 0 { -dy0 } else { dy0 }));
            assert(xdom == (adx2 as int > ady2 as int));
            assert(j as int == if xdom { ady2 as int - (adx2 as int) / 2 } else {
                adx2 as int - (ady2 as int) / 2 });
        }
        let ghost result = beyond_walk(
            *self, from.x as int, from.y as int, fsx as int, fsy as int, j as int,
            distance as int, xdom, x_inc as int, y_inc as int,
            adx2 as int, ady2 as int, WALK_FUEL as nat);

        while fuel > 0
            invariant
                grid_wf(*self),
                -0x2000_0000 <= cx <= 0x2000_0000,
                -0x2000_0000 <= cy <= 0x2000_0000,
                fuel <= WALK_FUEL,
                -0x0700_0020 - 2 * ((WALK_FUEL as int) - (fuel as int)) <= sx,
                sx <= 0x0700_0020 + 2 * ((WALK_FUEL as int) - (fuel as int)),
                -0x0700_0020 - 2 * ((WALK_FUEL as int) - (fuel as int)) <= sy,
                sy <= 0x0700_0020 + 2 * ((WALK_FUEL as int) - (fuel as int)),
                -1 <= x_inc <= 1,
                -1 <= y_inc <= 1,
                0 <= adx2 <= 0x1800_0000,
                0 <= ady2 <= 0x1800_0000,
                xdom ==> ady2 < adx2,
                !xdom ==> adx2 <= ady2,
                -(adx2 as int) - (ady2 as int) <= j <= (adx2 as int) + (ady2 as int),
                result == beyond_walk(
                    *self, cx as int, cy as int, sx as int, sy as int, j as int,
                    dist_left as int, xdom, x_inc as int, y_inc as int,
                    adx2 as int, ady2 as int, fuel as nat),
                1 <= dist_left <= distance,
            decreases fuel,
        {
            let nxt = self.from_screen(Point { x: sx, y: sy });
            if nxt.x != cx || nxt.y != cy {
                if dist_left == 1 || !self.is_in_bounds(nxt) {
                    proof {
                        assert(beyond_walk(
                            *self, cx as int, cy as int, sx as int, sy as int, j as int,
                            dist_left as int, xdom, x_inc as int, y_inc as int,
                            adx2 as int, ady2 as int, fuel as nat) == (cx as int, cy as int));
                    }
                    return Point { x: cx, y: cy };
                }
                cx = nxt.x;
                cy = nxt.y;
                dist_left = dist_left - 1;
                proof {
                    lemma_from_screen_small(*self, sx as int, sy as int);
                }
            }
            if xdom {
                if j >= 0 {
                    j = j - adx2;
                    sy = sy + y_inc;
                }
                j = j + ady2;
                sy = sy + x_inc;
            } else {
                if j >= 0 {
                    j = j - ady2;
                    sx = sx + x_inc;
                }
                j = j + adx2;
                sy = sy + y_inc;
            }
            fuel = fuel - 1;
        }
        proof {
            assert(beyond_walk(
                *self, cx as int, cy as int, sx as int, sy as int, j as int,
                dist_left as int, xdom, x_inc as int, y_inc as int,
                adx2 as int, ady2 as int, 0) == (cx as int, cy as int));
        }
        Point { x: cx, y: cy }
    }

    /// A tile rectangle covering the screen rectangle `rect`: tile
    /// coordinates of the rectangle's corner pixels, widened one tile each
    /// way to absorb the corner hit adjustments, and clipped to the grid
    /// when `clip` is true. This over-approximates: it covers every tile any
    /// pixel of `rect` maps to, but is up to one tile wider per side than
    /// the smallest such rectangle.
    pub fn from_screen_rect(&self, rect: &Rect, clip: bool) -> (r: Rect)
        requires
            grid_wf(*self),
            -0x0400_0000 <= rect.left < rect.right <= 0x0400_0000,
            -0x0400_0000 <= rect.top < rect.bottom <= 0x0400_0000,
        ensures
            ({
                let tl = from_screen_spec(*self, rect.left as int, rect.top as int);
                let bl = from_screen_spec(*self, rect.left as int, rect.bottom - 1);
                let tr = from_screen_spec(*self, rect.right - 1, rect.top as int);
                let br = from_screen_spec(*self, rect.right - 1, rect.bottom - 1);
                let cl = |x: int, lo: int, hi: int| if x < lo { lo } else if x > hi { hi } else { x };
                if clip {
                    r.left == cl(bl.0 - 1, 0, self.width - 1)
                    && r.top == cl(tl.1 - 1, 0, self.height - 1)
                    && r.right == cl(tr.0 + 1, 0, self.width - 1) + 1
                    && r.bottom == cl(br.1 + 1, 0, self.height - 1) + 1
                } else {
                    r.left == bl.0 - 1 && r.top == tl.1 - 1
                    && r.right == tr.0 + 2 && r.bottom == br.1 + 2
                }
            }),
    {
        let tl = self.from_screen(Point { x: rect.left, y: rect.top });
        let bl = self.from_screen(Point { x: rect.left, y: rect.bottom - 1 });
        let tr = self.from_screen(Point { x: rect.right - 1, y: rect.top });
        let br = self.from_screen(Point { x: rect.right - 1, y: rect.bottom - 1 });
        proof {
            lemma_from_screen_small(*self, rect.left as int, rect.top as int);
            lemma_from_screen_small(*self, rect.left as int, rect.bottom - 1);
            lemma_from_screen_small(*self, rect.right - 1, rect.top as int);
            lemma_from_screen_small(*self, rect.right - 1, rect.bottom - 1);
        }
        if clip {
            let a = self.clip(Point { x: bl.x - 1, y: tl.y - 1 });
            let b = self.clip(Point { x: tr.x + 1, y: br.y + 1 });
            Rect { left: a.x, top: a.y, right: b.x + 1, bottom: b.y + 1 }
        } else {
            Rect { left: bl.x - 1, top: tl.y - 1, right: tr.x + 2, bottom: br.y + 2 }
        }
    }
}

/// The screen position of a moderately bounded tile stays well inside the
/// pixel range `from_screen` accepts.
pub proof fn lemma_to_screen_small(g: TileGrid, px: int, py: int)
    requires
        grid_wf(g),
        -0x10_0000 <= px <= 0x10_0000,
        -0x10_0000 <= py <= 0x10_0000,
    ensures
        -0x0700_0000 <= to_screen_spec(g, px, py).0 <= 0x0700_0000,
        -0x0700_0000 <= to_screen_spec(g, px, py).1 <= 0x0700_0000,
{
    let a = px - g.pos.x;
    if a >= 0 {
        vstd::arithmetic::div_mod::lemma_fundamental_div_mod(a, 2);
        vstd::arithmetic::div_mod::lemma_mod_bound(a, 2);
    } else {
        vstd::arithmetic::div_mod::lemma_fundamental_div_mod(-a, 2);
        vstd::arithmetic::div_mod::lemma_mod_bound(-a, 2);
    }
}

/// The tile a bounded pixel maps to is itself bounded: every term of the
/// `from_screen` decomposition is a floor quotient of the input.
pub proof fn lemma_from_screen_small(g: TileGrid, px: int, py: int)
    requires
        grid_wf(g),
        -SCREEN_LIMIT <= px <= SCREEN_LIMIT,
        -SCREEN_LIMIT <= py <= SCREEN_LIMIT,
    ensures
        -0x2000_0000 <= from_screen_spec(g, px, py).0 <= 0x2000_0000,
        -0x2000_0000 <= from_screen_spec(g, px, py).1 <= 0x2000_0000,
{
    let ay = py - g.screen_pos.y;
    vstd::arithmetic::div_mod::lemma_fundamental_div_mod(ay, 12);
    vstd::arithmetic::div_mod::lemma_mod_bound(ay, 12);
    let ty0 = ay / 12;
    let hx = px - g.screen_pos.x - 16 * ty0;
    vstd::arithmetic::div_mod::lemma_fundamental_div_mod(hx, 64);
    vstd::arithmetic::div_mod::lemma_mod_bound(hx, 64);
}

} // verus!
