//! Laws that relate the grid's conversions to one another.

use vstd::prelude::*;
use crate::grid::{TileGrid, grid_wf, in_bounds_spec, tdiv, tmod, to_screen_spec,
    from_screen_spec, hit_spec, TileHit, hex_step, go_n, dir_sector, direction_spec,
    T31_NUM, T31_DEN, T29_NUM, T29_DEN, C1_NUM, C1_DEN};
use crate::direction::{Direction, screen_offset_spec};

verus! {

/// Round trip of the plain linear mapping: for `0 <= n < width * height`,
/// the tile `from_linear` yields is in bounds and `to_linear` maps it back
/// to `n`.
pub proof fn lemma_linear_round_trip(g: TileGrid, n: int)
    requires
        grid_wf(g),
        0 <= n < g.width * g.height,
    ensures
        in_bounds_spec(g, tmod(n, g.width as int), tdiv(n, g.width as int)),
        g.width * tdiv(n, g.width as int) + tmod(n, g.width as int) == n,
{
    let w = g.width as int;
    let h = g.height as int;
    vstd::arithmetic::div_mod::lemma_fundamental_div_mod(n, w);
    vstd::arithmetic::div_mod::lemma_mod_bound(n, w);
    if n / w >= h {
        assert(w * (n / w) >= w * h) by (nonlinear_arith)
            requires n / w >= h, w >= 1,
        {}
    }
    if n / w < 0 {
        assert(w * (n / w) <= -w) by (nonlinear_arith)
            requires n / w <= -1, w >= 1,
        {}
    }
}

/// Round trip of the mirrored linear mapping: for `0 <= n < width * height`,
/// the tile `from_linear_inv` yields is in bounds and `to_linear_inv` maps
/// it back to `n`.
pub proof fn lemma_linear_inv_round_trip(g: TileGrid, n: int)
    requires
        grid_wf(g),
        0 <= n < g.width * g.height,
    ensures
        in_bounds_spec(g, g.width - 1 - tmod(n, g.width as int), tdiv(n, g.width as int)),
        g.width * tdiv(n, g.width as int)
            + (g.width - 1 - (g.width - 1 - tmod(n, g.width as int))) == n,
{
    lemma_linear_round_trip(g, n);
}

/// The two-column floor decomposition of `to_screen`: with an even `pos.x`
/// the truncated half-difference and the odd-column correction add up to a
/// plain floor form, uniform in the sign of the coordinate.
pub proof fn lemma_to_screen_floor_form(g: TileGrid, px: int, py: int)
    requires
        grid_wf(g),
        g.pos.x % 2 == 0,
    ensures
        ({
            let xi = px - g.pos.x;
            let f = xi / 2;
            let o = xi % 2;
            let eta = py - g.pos.y;
            to_screen_spec(g, px, py)
                == (g.screen_pos.x + 48 * f + 32 * o + 16 * eta,
                    g.screen_pos.y - 12 * f + 12 * eta)
        }),
{
    let xi = px - g.pos.x;
    let f = xi / 2;
    let o = xi % 2;
    vstd::arithmetic::div_mod::lemma_fundamental_div_mod(xi, 2);
    vstd::arithmetic::div_mod::lemma_mod_bound(xi, 2);
    // Parity of `px` equals parity of `xi` since `g.pos.x` is even.
    let hpx = g.pos.x / 2;
    vstd::arithmetic::div_mod::lemma_fundamental_div_mod(g.pos.x as int, 2);
    assert(px == 2 * (f + hpx) + o);
    if px >= 0 {
        vstd::arithmetic::div_mod::lemma_fundamental_div_mod_converse(px, 2, f + hpx, o);
        assert(tmod(px, 2) == o);
    } else {
        vstd::arithmetic::div_mod::lemma_fundamental_div_mod_converse(px, 2, f + hpx, o);
        assert(px % 2 == o);
        if o == 0 {
            vstd::arithmetic::div_mod::lemma_fundamental_div_mod_converse(-px, 2, -(f + hpx), 0);
            assert(tmod(px, 2) == 0);
        } else {
            vstd::arithmetic::div_mod::lemma_fundamental_div_mod_converse(
                -px, 2, -(f + hpx) - 1, 1);
            assert(tmod(px, 2) == -1);
        }
    }
    // The truncated half-difference.
    if xi >= 0 {
        assert(tdiv(xi, 2) == f);
    } else {
        if o == 0 {
            vstd::arithmetic::div_mod::lemma_fundamental_div_mod_converse(-xi, 2, -f, 0);
            assert(tdiv(xi, 2) == f);
        } else {
            vstd::arithmetic::div_mod::lemma_fundamental_div_mod_converse(-xi, 2, -f - 1, 1);
            assert(tdiv(xi, 2) == f + 1);
        }
    }
}

/// Round trip of the screen mapping: for a grid whose `pos.x` is even, the
/// pixel 16 right and 8 down of a tile's anchor - the centre of its hexagon -
/// maps back to that tile, for every tile, in or out of bounds. (The anchor
/// pixel itself belongs to the neighbouring hexagon above, so the round trip
/// holds at the centre, not at the corner.)
pub proof fn lemma_screen_round_trip(g: TileGrid, px: int, py: int)
    requires
        grid_wf(g),
        g.pos.x % 2 == 0,
    ensures
        ({
            let s = to_screen_spec(g, px, py);
            from_screen_spec(g, s.0 + 16, s.1 + 8) == (px, py)
        }),
{
    lemma_to_screen_floor_form(g, px, py);
    let xi = px - g.pos.x;
    let f = xi / 2;
    let o = xi % 2;
    let eta = py - g.pos.y;
    vstd::arithmetic::div_mod::lemma_fundamental_div_mod(xi, 2);
    vstd::arithmetic::div_mod::lemma_mod_bound(xi, 2);
    let s = to_screen_spec(g, px, py);
    let qx = s.0 + 16;
    let qy = s.1 + 8;
    let ay = qy - g.screen_pos.y;
    assert(ay == 12 * (eta - f) + 8);
    vstd::arithmetic::div_mod::lemma_fundamental_div_mod_converse(ay, 12, eta - f, 8);
    let ty0 = ay / 12;
    assert(ty0 == eta - f);
    let hx = qx - g.screen_pos.x - 16 * ty0;
    assert(hx == 64 * f + 32 * o + 16);
    vstd::arithmetic::div_mod::lemma_fundamental_div_mod_converse(hx, 64, f, 32 * o + 16);
    let thx = hx / 64;
    assert(thx == f);
    let sx0 = hx - 64 * thx;
    assert(sx0 == 32 * o + 16);
    assert(hit_spec(16, 8) == TileHit::Inside);
    if o == 1 {
        assert(sx0 == 48);
        assert(from_screen_spec(g, qx, qy) == (2 * f + 1 + g.pos.x, ty0 + f + g.pos.y));
    } else {
        assert(sx0 == 16);
        assert(from_screen_spec(g, qx, qy) == (2 * f + g.pos.x, ty0 + f + g.pos.y));
    }
}

} // verus!

verus! {

/// One neighbour step moves a tile's screen position by exactly
/// `screen_offset_spec` of the direction, on any grid whose `pos.x` is even.
pub proof fn lemma_step_screen_offset(g: TileGrid, px: int, py: int, d: Direction)
    requires
        grid_wf(g),
        g.pos.x % 2 == 0,
    ensures
        ({
            let q = hex_step(px, py, d);
            let s = to_screen_spec(g, px, py);
            let t = to_screen_spec(g, q.0, q.1);
            t.0 == s.0 + screen_offset_spec(d).0 && t.1 == s.1 + screen_offset_spec(d).1
        }),
{
    let xi = px - g.pos.x;
    let f = xi / 2;
    let o = xi % 2;
    let q = hex_step(px, py, d);
    vstd::arithmetic::div_mod::lemma_fundamental_div_mod(xi, 2);
    vstd::arithmetic::div_mod::lemma_mod_bound(xi, 2);
    // Parity of `px` equals parity of `xi`.
    vstd::arithmetic::div_mod::lemma_fundamental_div_mod(g.pos.x as int, 2);
    let hpx = g.pos.x as int / 2;
    vstd::arithmetic::div_mod::lemma_fundamental_div_mod_converse(px, 2, f + hpx, o);
    assert(px % 2 == o);
    // Floor decomposition of the neighbouring columns.
    if o == 0 {
        vstd::arithmetic::div_mod::lemma_fundamental_div_mod_converse(xi + 1, 2, f, 1);
        vstd::arithmetic::div_mod::lemma_fundamental_div_mod_converse(xi - 1, 2, f - 1, 1);
    } else {
        vstd::arithmetic::div_mod::lemma_fundamental_div_mod_converse(xi + 1, 2, f + 1, 0);
        vstd::arithmetic::div_mod::lemma_fundamental_div_mod_converse(xi - 1, 2, f, 0);
    }
    lemma_to_screen_floor_form(g, px, py);
    lemma_to_screen_floor_form(g, q.0, q.1);
}

/// `k` steps move a tile's screen position by exactly `k` times the
/// direction's screen offset.
pub proof fn lemma_walk_screen_delta(g: TileGrid, px: int, py: int, d: Direction, k: nat)
    requires
        grid_wf(g),
        g.pos.x % 2 == 0,
    ensures
        ({
            let q = go_n(px, py, d, k);
            let s = to_screen_spec(g, px, py);
            let t = to_screen_spec(g, q.0, q.1);
            t.0 == s.0 + k * screen_offset_spec(d).0 && t.1 == s.1 + k * screen_offset_spec(d).1
        }),
    decreases k,
{
    if k == 0 {
        assert(go_n(px, py, d, 0) == (px, py));
    } else {
        let q1 = hex_step(px, py, d);
        lemma_step_screen_offset(g, px, py, d);
        lemma_walk_screen_delta(g, q1.0, q1.1, d, (k - 1) as nat);
        assert(go_n(px, py, d, k) == go_n(q1.0, q1.1, d, (k - 1) as nat));
        assert(k * screen_offset_spec(d).0 == (k - 1) * screen_offset_spec(d).0
            + screen_offset_spec(d).0) by (nonlinear_arith);
        assert(k * screen_offset_spec(d).1 == (k - 1) * screen_offset_spec(d).1
            + screen_offset_spec(d).1) by (nonlinear_arith);
    }
}

/// A positive multiple of a direction's screen offset classifies back to
/// that direction.
pub proof fn lemma_sector_of_offset(d: Direction, k: int)
    requires
        k >= 1,
    ensures
        dir_sector(-(k * screen_offset_spec(d).1), k * screen_offset_spec(d).0) == d,
{
    let ox = screen_offset_spec(d).0;
    let oy = screen_offset_spec(d).1;
    let u = -(k * oy);
    let v = k * ox;
    match d {
        Direction::NE => {
            assert(u == 12 * k && v == 16 * k) by (nonlinear_arith)
                requires u == -(k * oy), v == k * ox, oy == -12, ox == 16,
            {}
            assert(u > 0 && v > 0 && u * T31_DEN > v * T31_NUM) by (nonlinear_arith)
                requires u == 12 * k, v == 16 * k, k >= 1,
            {}
        },
        Direction::E => {
            assert(v == 32 * k && u == 0 && v > 0) by (nonlinear_arith)
                requires u == -(k * oy), v == k * ox, oy == 0, ox == 32, k >= 1,
            {}
            assert(v * T31_NUM >= 0 && 0 * T31_DEN == 0) by (nonlinear_arith)
                requires v > 0,
            {}
        },
        Direction::SE => {
            assert(u == -(12 * k) && v == 16 * k && u < 0 && v > 0
                && 3 * u * u > v * v) by (nonlinear_arith)
                requires u == -(k * oy), v == k * ox, oy == 12, ox == 16, k >= 1,
            {}
        },
        Direction::SW => {
            assert(u == -(12 * k) && v == -(16 * k) && u < 0 && v < 0
                && 3 * u * u > v * v) by (nonlinear_arith)
                requires u == -(k * oy), v == k * ox, oy == 12, ox == -16, k >= 1,
            {}
        },
        Direction::W => {
            assert(u == 0 && v == -(32 * k) && v < 0) by (nonlinear_arith)
                requires u == -(k * oy), v == k * ox, oy == 0, ox == -32, k >= 1,
            {}
        },
        Direction::NW => {
            assert(u == 12 * k && v == -(16 * k) && u > 0 && v < 0
                && !(u * C1_DEN > (-v) * C1_NUM)
                && u * T29_DEN > (-v) * T29_NUM) by (nonlinear_arith)
                requires u == -(k * oy), v == k * ox, oy == -12, ox == -16, k >= 1,
            {}
        },
    }
}

/// Walking any positive number of unbounded steps in a direction and asking
/// for the direction back gives that direction, on any grid whose `pos.x`
/// is even.
pub proof fn lemma_direction_of_walk(g: TileGrid, px: int, py: int, d: Direction, k: nat)
    requires
        grid_wf(g),
        g.pos.x % 2 == 0,
        k >= 1,
    ensures
        ({
            let q = go_n(px, py, d, k);
            direction_spec(g, px, py, q.0, q.1) == d
        }),
{
    lemma_walk_screen_delta(g, px, py, d, k);
    lemma_sector_of_offset(d, k as int);
}

} // verus!
