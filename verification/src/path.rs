//! A bounded A* pathfinder over a [`TileGrid`], with a caller-supplied
//! per-tile verdict and a hard cap on search effort.

use vstd::prelude::*;
use crate::point::Point;
use crate::direction::Direction;
use crate::grid::{TileGrid, grid_wf, in_bounds_spec, to_screen_spec, hex_step, go_n};

verus! {

/// The bits a `bit_vec::BitVec` holds, in order.
pub uninterp spec fn bv_bits(v: bit_vec::BitVec) -> Seq<bool>;

#[verifier::external_type_specification]
#[verifier::external_body]
#[verifier::reject_recursive_types(B)]
pub struct ExBitVec<B>(bit_vec::BitVec<B>);

/// Relies on bit_vec::BitVec::from_elem: `nbits` bits, each set to `bit`.
#[verifier::external_body]
fn bv_from_elem(nbits: usize, bit: bool) -> (r: bit_vec::BitVec)
    ensures
        bv_bits(r) == Seq::new(nbits as nat, |i: int| bit),
{
    bit_vec::BitVec::from_elem(nbits, bit)
}

/// Relies on bit_vec::BitVec::clear: sets every bit to false, keeping the
/// length.
#[verifier::external_body]
fn bv_clear(v: &mut bit_vec::BitVec)
    ensures
        bv_bits(*final(v)) == Seq::new(bv_bits(*old(v)).len(), |i: int| false),
{
    v.clear()
}

/// Relies on bit_vec::BitVec::set: writes one bit; panics only when the
/// index is out of range, which the precondition rules out.
#[verifier::external_body]
fn bv_set(v: &mut bit_vec::BitVec, i: usize, x: bool)
    requires
        i < bv_bits(*old(v)).len(),
    ensures
        bv_bits(*final(v)) == bv_bits(*old(v)).update(i as int, x),
{
    v.set(i, x)
}

/// Relies on bit_vec::BitVec::get: the bit at `i`, or none past the end.
#[verifier::external_body]
fn bv_get(v: &bit_vec::BitVec, i: usize) -> (r: Option<bool>)
    ensures
        r == if i < bv_bits(*v).len() { Some(bv_bits(*v)[i as int]) } else { None::<bool> },
{
    v.get(i)
}

/// The verdict of the tile-state callback: a tile is either blocked, or
/// passable at some extra cost.
#[derive(Clone, Copy, Debug, PartialEq, Eq, Structural)]
pub enum TileState {
    Blocked,
    Passable(u32),
}

/// One entry of the search workspace: a reached tile, the workspace index
/// it was reached from, the direction of that last step, the cost paid so
/// far and the heuristic estimate to the goal.
#[derive(Clone, Copy, Debug)]
struct Step {
    pos: Point,
    came_from: usize,
    direction: Direction,
    cost: u32,
    estimate: u32,
}

/// The screen-space heuristic: `|dx| + |dy| - min(|dx|, |dy|) / 2` on the
/// screen displacement between the two tiles.
pub open spec fn estimate_spec(g: TileGrid, fx: int, fy: int, tx: int, ty: int) -> int {
    let fs = to_screen_spec(g, fx, fy);
    let ts = to_screen_spec(g, tx, ty);
    let dx = if ts.0 - fs.0 < 0 { fs.0 - ts.0 } else { ts.0 - fs.0 };
    let dy = if ts.1 - fs.1 < 0 { fs.1 - ts.1 } else { ts.1 - fs.1 };
    let m = if dx < dy { dx } else { dy };
    dx + dy - m / 2
}

/// The tile reached by replaying `path` from `(x, y)`, one unbounded
/// neighbour step per entry.
pub open spec fn walk(x: int, y: int, path: Seq<Direction>) -> (int, int)
    decreases path.len(),
{
    if path.len() == 0 {
        (x, y)
    } else {
        let q = hex_step(x, y, path[0]);
        walk(q.0, q.1, path.skip(1))
    }
}

/// The point with the given coordinates.
pub open spec fn pt_of(x: int, y: int) -> Point {
    Point { x: x as i32, y: y as i32 }
}

/// Every tile the replayed path passes through, the destination included,
/// lies on the grid and drew a passable verdict consistent with the
/// callback's specification.
pub open spec fn trace_ok<F: Fn(Point) -> TileState>(
    g: TileGrid, x: int, y: int, t: Seq<Direction>, f: F) -> bool {
    forall|j: int| 1 <= j <= t.len() ==> ({
        let p = walk(x, y, #[trigger] t.take(j));
        &&& in_bounds_spec(g, p.0, p.1)
        &&& exists|c: u32| call_ensures(f, (pt_of(p.0, p.1),), TileState::Passable(c))
    })
}

/// Replaying a path that starts with `d` first takes the step `d`.
proof fn lemma_walk_cons(x: int, y: int, d: Direction, t: Seq<Direction>)
    ensures
        walk(x, y, seq![d] + t) == ({
            let q = hex_step(x, y, d);
            walk(q.0, q.1, t)
        }),
{
    let s = seq![d] + t;
    assert(s[0] == d);
    assert(s.skip(1) =~= t);
}

proof fn lemma_walk_one(x: int, y: int, d: Direction)
    ensures
        walk(x, y, seq![d]) == hex_step(x, y, d),
{
    let s = seq![d];
    let q = hex_step(x, y, d);
    assert(s[0] == d);
    assert(s.skip(1) =~= Seq::<Direction>::empty());
    assert(walk(q.0, q.1, Seq::<Direction>::empty()) == q);
    assert(walk(x, y, s) == walk(q.0, q.1, s.skip(1)));
}

/// Workspace entry `k` records one neighbour step from its predecessor and
/// a passable verdict for its tile.
spec fn step_ok<F: Fn(Point) -> TileState>(s: Seq<Step>, f: F, k: int) -> bool {
    let st = s[k];
    &&& (st.pos.x as int, st.pos.y as int) == hex_step(
        s[st.came_from as int].pos.x as int, s[st.came_from as int].pos.y as int,
        st.direction)
    &&& exists|c: u32| call_ensures(f, (st.pos,), TileState::Passable(c))
}

/// Every workspace entry after the start is linked and passable.
spec fn steps_linked<F: Fn(Point) -> TileState>(s: Seq<Step>, f: F) -> bool {
    forall|k: int| 1 <= k < s.len() ==> #[trigger] step_ok(s, f, k)
}

/// The linear index of tile `p` on grid `g`.
pub open spec fn lin_of(g: TileGrid, p: Point) -> int {
    g.width * p.y + p.x
}

/// The linear index of an in-bounds tile lies within the bitset.
proof fn lemma_lin_range(g: TileGrid, p: Point)
    requires
        grid_wf(g),
        in_bounds_spec(g, p.x as int, p.y as int),
    ensures
        0 <= lin_of(g, p) < g.width * g.height,
{
    assert(0 <= g.width * p.y + p.x < g.width * g.height) by (nonlinear_arith)
        requires
            0 <= p.x < g.width,
            0 <= p.y < g.height,
            1 <= g.width,
            1 <= g.height,
    {}
}

/// A set whose every element is the linear index of some workspace entry's
/// tile has no more elements than there are entries.
proof fn lemma_card_witness(s: Set<int>, q: Seq<Step>, g: TileGrid)
    requires
        s.finite(),
        forall|idx: int| #[trigger] s.contains(idx) ==>
            exists|k: int| 0 <= k < q.len() && lin_of(g, q[k].pos) == idx,
    ensures
        s.len() <= q.len(),
    decreases q.len(),
{
    if q.len() == 0 {
        assert(s =~= Set::<int>::empty());
    } else {
        let last = lin_of(g, q.last().pos);
        let s2 = s.remove(last);
        let q2 = q.drop_last();
        assert forall|idx: int| #[trigger] s2.contains(idx) implies
            exists|k: int| 0 <= k < q2.len() && lin_of(g, q2[k].pos) == idx by {
            assert(s.contains(idx));
            let k0 = choose|k: int| 0 <= k < q.len() && lin_of(g, q[k].pos) == idx;
            assert(k0 < q.len() - 1);
            assert(q2[k0] == q[k0]);
        }
        lemma_card_witness(s2, q2, g);
    }
}

/// A bounded A* pathfinder owning its reusable workspace: the `steps` arena
/// doubles as open set and predecessor record, `closed` is a bitset indexed
/// by linear tile number.
pub struct PathFinder {
    tile_grid: TileGrid,
    steps: Vec<Step>,
    closed: bit_vec::BitVec,
    max_depth: usize,
}

impl PathFinder {
    /// Well-formedness: the grid is well formed and the closed bitset has
    /// one bit per tile.
    pub closed spec fn wf(self) -> bool {
        &&& grid_wf(self.tile_grid)
        &&& bv_bits(self.closed).len() == self.tile_grid.width * self.tile_grid.height
    }

    pub closed spec fn grid(self) -> TileGrid {
        self.tile_grid
    }

    pub closed spec fn depth(self) -> usize {
        self.max_depth
    }

    /// Number of steps left in the workspace by the last search.
    pub fn steps_len(&self) -> (r: usize)
        ensures
            r == self.steps_view_len(),
    {
        self.steps.len()
    }

    /// Number of steps in the workspace, as a specification value.
    pub closed spec fn steps_view_len(self) -> int {
        self.steps@.len() as int
    }

    /// Whether no tile is marked closed.
    pub closed spec fn no_tiles_closed(self) -> bool {
        forall|i: int| 0 <= i < bv_bits(self.closed).len() ==> !bv_bits(self.closed)[i]
    }

    /// Whether tile `p` is marked closed.
    pub closed spec fn tile_closed(self, p: Point) -> bool {
        bv_bits(self.closed)[lin_of(self.tile_grid, p)]
    }

    /// Whether every workspace entry's tile is marked closed: the searched
    /// frontier is exhausted.
    pub closed spec fn all_steps_closed(self) -> bool {
        forall|k: int| 0 <= k < self.steps@.len() ==>
            self.tile_closed((#[trigger] self.steps@[k]).pos)
    }

    pub fn new(tile_grid: TileGrid, max_depth: usize) -> (r: PathFinder)
        requires
            grid_wf(tile_grid),
        ensures
            r.wf(),
            r.grid() == tile_grid,
            r.depth() == max_depth,
            r.steps_view_len() == 0,
            r.no_tiles_closed(),
    {
        let tile_grid_len = tile_grid.len();
        PathFinder {
            tile_grid,
            steps: Vec::new(),
            closed: bv_from_elem(tile_grid_len, false),
            max_depth,
        }
    }

    /// Marks a tile closed.
    fn close(&mut self, pos: Point)
        requires
            old(self).wf(),
            in_bounds_spec(old(self).tile_grid, pos.x as int, pos.y as int),
        ensures
            final(self).wf(),
            final(self).tile_grid == old(self).tile_grid,
            final(self).max_depth == old(self).max_depth,
            final(self).steps == old(self).steps,
            bv_bits(final(self).closed) == bv_bits(old(self).closed).update(
                lin_of(old(self).tile_grid, pos), true),
            0 <= lin_of(old(self).tile_grid, pos) < bv_bits(old(self).closed).len(),
    {
        let lin = match self.tile_grid.to_linear(pos) {
            Some(n) => n,
            None => { proof { assert(false); } 0 },
        };
        bv_set(&mut self.closed, lin as usize, true);
    }

    /// Whether a tile has been closed.
    fn is_closed(&self, pos: Point) -> (r: bool)
        requires
            self.wf(),
            in_bounds_spec(self.tile_grid, pos.x as int, pos.y as int),
        ensures
            r == self.tile_closed(pos),
    {
        let lin = match self.tile_grid.to_linear(pos) {
            Some(n) => n,
            None => { proof { assert(false); } 0 },
        };
        match bv_get(&self.closed, lin as usize) {
            Some(b) => b,
            None => { proof { assert(false); } false },
        }
    }

    /// The screen-space heuristic estimate from `from` to `to`.
    #[verifier::rlimit(30)]
    fn estimate(&self, from: Point, to: Point) -> (r: u32)
        requires
            grid_wf(self.tile_grid),
            -0x10_0000 <= from.x <= 0x10_0000,
            -0x10_0000 <= from.y <= 0x10_0000,
            -0x10_0000 <= to.x <= 0x10_0000,
            -0x10_0000 <= to.y <= 0x10_0000,
        ensures
            r == estimate_spec(self.tile_grid, from.x as int, from.y as int,
                to.x as int, to.y as int),
    {
        let fs = self.tile_grid.to_screen(from);
        let ts = self.tile_grid.to_screen(to);
        let dx0: i64 = (ts.x as i64) - (fs.x as i64);
        let dy0: i64 = (ts.y as i64) - (fs.y as i64);
        let dx: i64 = if dx0 < 0 { -dx0 } else { dx0 };
        let dy: i64 = if dy0 < 0 { -dy0 } else { dy0 };
        let m: i64 = if dx < dy { dx } else { dy };
        let e: i64 = dx + dy - m / 2;
        proof {
            assert(m / 2 == m as int / 2);
        }
        e as u32
    }

    /// Bounded A* search for a path of directions from `from` to `to`.
    ///
    /// `f` gives each tile's verdict; it is a plain `Fn`, so a callback
    /// that mutates captured state cannot be passed. When `smooth` is true,
    /// changing direction costs an extra 10. Returns the directions that
    /// walk `from` onto `to` through in-bounds passable tiles, the empty
    /// path exactly when `from == to`, and none when the destination is
    /// blocked, the frontier is exhausted (every reached tile closed), or
    /// the workspace would exceed `max_depth` steps - in which case exactly
    /// `max_depth` steps remain in it.
    #[verifier::rlimit(100)]
    pub fn find<F: Fn(Point) -> TileState>(
        &mut self,
        from: Point,
        to: Point,
        smooth: bool,
        f: F,
    ) -> (r: Option<Vec<Direction>>)
        requires
            old(self).wf(),
            from == to || in_bounds_spec(old(self).grid(), from.x as int, from.y as int),
            -0x10_0000 <= from.x <= 0x10_0000,
            -0x10_0000 <= from.y <= 0x10_0000,
            -0x10_0000 <= to.x <= 0x10_0000,
            -0x10_0000 <= to.y <= 0x10_0000,
            forall|p: Point|
                in_bounds_spec(old(self).grid(), p.x as int, p.y as int) || p == to ==>
                    #[trigger] call_requires(f, (p,)),
        ensures
            final(self).wf(),
            from == to ==> *final(self) == *old(self),
            final(self).grid() == old(self).grid(),
            final(self).depth() == old(self).depth(),
            from == to ==> (r matches Some(path) && path@.len() == 0),
            (r matches Some(path) && path@.len() == 0) ==> from == to,
            r matches Some(path) ==> path@.len() <= old(self).depth(),
            (from != to && r is Some) ==>
                exists|c: u32| call_ensures(f, (to,), TileState::Passable(c)),
            r matches Some(path) ==> walk(from.x as int, from.y as int, path@)
                == (to.x as int, to.y as int),
            r matches Some(path) ==> trace_ok(old(self).grid(), from.x as int, from.y as int,
                path@, f),
            r is None ==> (call_ensures(f, (to,), TileState::Blocked)
                || final(self).all_steps_closed()
                || final(self).steps_view_len()
                    == (if old(self).depth() == 0 { 1int } else { old(self).depth() as int })),
    {
        if from.x == to.x && from.y == to.y {
            return Some(Vec::new());
        }
        let verdict = f(to);
        match verdict {
            TileState::Blocked => {
                return None;
            },
            TileState::Passable(c0) => {
                proof {
                    assert(call_ensures(f, (to,), TileState::Passable(c0)));
                }
            },
        }

        self.steps.clear();
        bv_clear(&mut self.closed);

        let start_estimate = self.estimate(from, to);
        let step = Step {
            pos: from,
            came_from: 0,
            direction: Direction::NE,
            cost: 0,
            estimate: start_estimate,
        };
        self.steps.push(step);
        let ghost mut closed_lins: Set<int> = Set::empty();
        let ghost mut ranks: Seq<int> = seq![0];

        let cap: usize = if self.max_depth < usize::MAX - 2 { self.max_depth + 2 } else {
            usize::MAX
        };
        let mut iters: usize = 0;
        proof {
            assert(0 <= self.tile_grid.width * from.y + from.x
                    < self.tile_grid.width * self.tile_grid.height) by (nonlinear_arith)
                requires
                    0 <= from.x < self.tile_grid.width,
                    0 <= from.y < self.tile_grid.height,
                    1 <= self.tile_grid.width,
                    1 <= self.tile_grid.height,
            {}
            assert(!self.tile_closed(from));
        }

        while iters < cap
            invariant
                self.wf(),
                self.tile_grid == old(self).tile_grid,
                self.max_depth == old(self).max_depth,
                -0x10_0000 <= to.x <= 0x10_0000,
                -0x10_0000 <= to.y <= 0x10_0000,
                from != to,
                iters <= cap,
                iters == 0 ==> self.steps@.len() == 1,
                iters >= 1 ==> self.tile_closed(from),
                1 <= self.steps@.len(),
                self.steps@[0].pos == from,
                self.steps@.len() <= self.max_depth || self.steps@.len() == 1,
                forall|k: int| 0 <= k < self.steps@.len() ==>
                    in_bounds_spec(self.tile_grid, (#[trigger] self.steps@[k]).pos.x as int,
                        self.steps@[k].pos.y as int),
                forall|k: int| 0 <= k < self.steps@.len() ==>
                    (#[trigger] self.steps@[k]).came_from < self.steps@.len(),
                steps_linked(self.steps@, f),
                closed_lins.finite(),
                closed_lins.len() == iters,
                forall|idx: int| #[trigger] closed_lins.contains(idx) <==>
                    (0 <= idx < bv_bits(self.closed).len() && bv_bits(self.closed)[idx]),
                forall|idx: int| #[trigger] closed_lins.contains(idx) ==>
                    exists|k: int| 0 <= k < self.steps@.len()
                        && lin_of(self.tile_grid, self.steps@[k].pos) == idx,
                ranks.len() == self.steps@.len(),
                ranks[0] == 0,
                forall|k: int| 0 <= k < self.steps@.len() ==> ({
                    &&& 0 <= #[trigger] ranks[k] <= iters
                    &&& (self.tile_closed(self.steps@[k].pos) ==> ranks[k] < iters)
                    &&& (k >= 1 ==> ranks[k] == ranks[self.steps@[k].came_from as int] + 1
                        && self.tile_closed(self.steps@[self.steps@[k].came_from as int].pos))
                }),
                forall|p: Point|
                    in_bounds_spec(self.tile_grid, p.x as int, p.y as int) || p == to ==>
                        #[trigger] call_requires(f, (p,)),
                exists|c: u32| call_ensures(f, (to,), TileState::Passable(c)),
            decreases cap - iters,
        {
            iters = iters + 1;

            // Select the open step with the least total cost, earliest first.
            let mut best: usize = 0;
            let mut found = false;
            let mut k: usize = 0;
            while k < self.steps.len()
                invariant
                    self.wf(),
                    k <= self.steps@.len(),
                    found ==> best < self.steps@.len(),
                    found ==> !self.tile_closed(self.steps@[best as int].pos),
                    !found ==> forall|j: int| 0 <= j < k ==>
                        self.tile_closed((#[trigger] self.steps@[j]).pos),
                    forall|j: int| 0 <= j < self.steps@.len() ==>
                        in_bounds_spec(self.tile_grid, (#[trigger] self.steps@[j]).pos.x as int,
                            self.steps@[j].pos.y as int),
                decreases self.steps@.len() - k,
            {
                let pos_k = self.steps[k].pos;
                if !self.is_closed(pos_k) {
                    if !found {
                        best = k;
                        found = true;
                    } else {
                        let ck = total_cost(&self.steps[k]);
                        let cb = total_cost(&self.steps[best]);
                        if ck < cb {
                            best = k;
                        }
                    }
                }
                k = k + 1;
            }
            if !found {
                proof {
                    assert(self.all_steps_closed());
                }
                return None;
            }

            let cur_pos = self.steps[best].pos;
            let cur_cost = self.steps[best].cost;
            let cur_dir = self.steps[best].direction;

            if cur_pos.x == to.x && cur_pos.y == to.y {
                // Reconstruct the path backward along the predecessor chain.
                proof {
                    assert(cur_pos == to);
                    assert(best != 0);
                }
                let mut rev: Vec<Direction> = Vec::new();
                let d0 = self.steps[best].direction;
                rev.push(d0);
                let mut i = self.steps[best].came_from;
                let ghost mut tail: Seq<Direction> = seq![d0];
                proof {
                    let sv = self.steps@;
                    let pp = sv[i as int].pos;
                    assert(step_ok(sv, f, best as int));
                    lemma_walk_one(pp.x as int, pp.y as int, d0);
                    assert(tail.take(1) =~= tail);
                    assert(pt_of(cur_pos.x as int, cur_pos.y as int) == cur_pos);
                }
                proof {
                    lemma_card_witness(closed_lins, self.steps@, self.tile_grid);
                }
                while i != 0
                    invariant
                        self.wf(),
                        self.tile_grid == old(self).tile_grid,
                        self.max_depth == old(self).max_depth,
                        from != to,
                        i < self.steps@.len(),
                        best < self.steps@.len(),
                        self.steps@[0].pos == from,
                        forall|j2: int| 0 <= j2 < self.steps@.len() ==>
                            (#[trigger] self.steps@[j2]).came_from < self.steps@.len(),
                        forall|j2: int| 0 <= j2 < self.steps@.len() ==>
                            in_bounds_spec(self.tile_grid,
                                (#[trigger] self.steps@[j2]).pos.x as int,
                                self.steps@[j2].pos.y as int),
                        steps_linked(self.steps@, f),
                        ranks.len() == self.steps@.len(),
                        ranks[0] == 0,
                        forall|j2: int| 0 <= j2 < self.steps@.len() ==> ({
                            &&& 0 <= #[trigger] ranks[j2]
                            &&& (j2 >= 1 ==> ranks[j2]
                                    == ranks[self.steps@[j2].came_from as int] + 1)
                        }),
                        ranks[best as int] <= self.max_depth,
                        rev@.len() + ranks[i as int] == ranks[best as int],
                        rev@.len() >= 1,
                        tail.len() == rev@.len(),
                        forall|m: int| 0 <= m < tail.len() ==>
                            #[trigger] rev@[m] == tail[tail.len() - 1 - m],
                        walk(self.steps@[i as int].pos.x as int,
                            self.steps@[i as int].pos.y as int, tail)
                            == (to.x as int, to.y as int),
                        trace_ok(self.tile_grid, self.steps@[i as int].pos.x as int,
                            self.steps@[i as int].pos.y as int, tail, f),
                    decreases ranks[i as int],
                {
                    let d_i = self.steps[i].direction;
                    let parent = self.steps[i].came_from;
                    proof {
                        let sv = self.steps@;
                        let pi = sv[i as int].pos;
                        let pp = sv[parent as int].pos;
                        let t0 = tail;
                        tail = seq![d_i] + tail;
                        assert(step_ok(sv, f, i as int));
                        lemma_walk_cons(pp.x as int, pp.y as int, d_i, t0);
                        assert(walk(pp.x as int, pp.y as int, tail)
                            == (to.x as int, to.y as int));
                        assert(pt_of(pi.x as int, pi.y as int) == pi);
                        assert forall|j2: int| 1 <= j2 <= tail.len() implies ({
                            let p = walk(pp.x as int, pp.y as int, #[trigger] tail.take(j2));
                            in_bounds_spec(self.tile_grid, p.0, p.1)
                            && exists|c: u32| call_ensures(f, (pt_of(p.0, p.1),),
                                TileState::Passable(c))
                        }) by {
                            if j2 == 1 {
                                assert(tail.take(1) =~= seq![d_i]);
                                lemma_walk_one(pp.x as int, pp.y as int, d_i);
                            } else {
                                assert(tail.take(j2) =~= seq![d_i] + t0.take(j2 - 1));
                                lemma_walk_cons(pp.x as int, pp.y as int, d_i, t0.take(j2 - 1));
                                assert(1 <= j2 - 1 <= t0.len());
                            }
                        }
                    }
                    rev.push(d_i);
                    proof {
                        assert forall|m: int| 0 <= m < tail.len() implies
                            #[trigger] rev@[m] == tail[tail.len() - 1 - m] by {
                            if m < tail.len() - 1 {
                                assert(tail[tail.len() - 1 - m]
                                    == tail.subrange(1, tail.len() as int)[tail.len() - 2 - m]);
                            }
                        }
                    }
                    i = parent;
                }
                // Reverse into forward order.
                let ghost gtail = tail;
                let mut path: Vec<Direction> = Vec::new();
                let mut j = rev.len();
                while j > 0
                    invariant
                        j <= rev@.len(),
                        path@.len() == rev@.len() - j,
                        gtail.len() == rev@.len(),
                        forall|m: int| 0 <= m < gtail.len() ==>
                            #[trigger] rev@[m] == gtail[gtail.len() - 1 - m],
                        forall|m: int| 0 <= m < path@.len() ==>
                            #[trigger] path@[m] == rev@[rev@.len() - 1 - m],
                    decreases j,
                {
                    j = j - 1;
                    path.push(rev[j]);
                }
                proof {
                    assert forall|m: int| 0 <= m < path@.len() implies
                        #[trigger] path@[m] == gtail[m] by {
                        assert(path@[m] == rev@[rev@.len() - 1 - m]);
                        assert(rev@[rev@.len() - 1 - m]
                            == gtail[gtail.len() - 1 - (rev@.len() - 1 - m)]);
                    }
                    assert(path@ =~= gtail);
                }
                return Some(path);
            }

            let ghost pre_bits = bv_bits(self.closed);
            self.close(cur_pos);
            proof {
                let lin = lin_of(self.tile_grid, cur_pos);
                assert(!closed_lins.contains(lin));
                closed_lins = closed_lins.insert(lin);
                assert(bv_bits(self.closed) == pre_bits.update(lin, true));
                lemma_lin_range(self.tile_grid, cur_pos);
                assert(self.tile_closed(cur_pos));
                if iters == 1 {
                    assert(best == 0);
                    assert(cur_pos == from);
                } else {
                    lemma_lin_range(self.tile_grid, from);
                    assert(pre_bits[lin_of(self.tile_grid, from)]);
                }
                assert(self.tile_closed(from));
                assert forall|k3: int| 0 <= k3 < self.steps@.len() implies ({
                    &&& 0 <= ranks[k3] <= iters
                    &&& (self.tile_closed(self.steps@[k3].pos) ==> ranks[k3] < iters)
                    &&& (k3 >= 1 ==> ranks[k3]
                            == ranks[self.steps@[k3].came_from as int] + 1
                        && self.tile_closed(self.steps@[
                            self.steps@[k3].came_from as int].pos))
                }) by {
                    assert(0 <= ranks[k3] <= iters - 1);
                    lemma_lin_range(self.tile_grid, self.steps@[k3].pos);
                    if k3 >= 1 {
                        let cf = self.steps@[k3].came_from as int;
                        lemma_lin_range(self.tile_grid, self.steps@[cf].pos);
                    }
                }
                assert forall|idx: int| #[trigger] closed_lins.contains(idx) implies
                    exists|k3: int| 0 <= k3 < self.steps@.len()
                        && lin_of(self.tile_grid, self.steps@[k3].pos) == idx by {
                    if idx != lin {
                        assert(pre_bits[idx]);
                    }
                }
            }

            let dirs = Direction::values();
            let mut di: usize = 0;
            while di < 6
                invariant
                    self.wf(),
                    self.tile_grid == old(self).tile_grid,
                    self.max_depth == old(self).max_depth,
                    -0x10_0000 <= to.x <= 0x10_0000,
                    -0x10_0000 <= to.y <= 0x10_0000,
                    di <= 6,
                    best < self.steps@.len(),
                    in_bounds_spec(self.tile_grid, cur_pos.x as int, cur_pos.y as int),
                    1 <= self.steps@.len(),
                    self.steps@[0].pos == from,
                    from != to,
                    self.steps@.len() <= self.max_depth || self.steps@.len() == 1,
                    forall|k2: int| 0 <= k2 < self.steps@.len() ==>
                        in_bounds_spec(self.tile_grid, (#[trigger] self.steps@[k2]).pos.x as int,
                            self.steps@[k2].pos.y as int),
                    forall|k2: int| 0 <= k2 < self.steps@.len() ==>
                        (#[trigger] self.steps@[k2]).came_from < self.steps@.len(),
                    steps_linked(self.steps@, f),
                    self.steps@[best as int].pos == cur_pos,
                    self.tile_closed(cur_pos),
                    self.tile_closed(from),
                    iters >= 1,
                    closed_lins.finite(),
                    closed_lins.len() == iters,
                    forall|idx: int| #[trigger] closed_lins.contains(idx) <==>
                        (0 <= idx < bv_bits(self.closed).len() && bv_bits(self.closed)[idx]),
                    forall|idx: int| #[trigger] closed_lins.contains(idx) ==>
                        exists|k3: int| 0 <= k3 < self.steps@.len()
                            && lin_of(self.tile_grid, self.steps@[k3].pos) == idx,
                    ranks.len() == self.steps@.len(),
                    ranks[0] == 0,
                    forall|k3: int| 0 <= k3 < self.steps@.len() ==> ({
                        &&& 0 <= #[trigger] ranks[k3] <= iters
                        &&& (self.tile_closed(self.steps@[k3].pos) ==> ranks[k3] < iters)
                        &&& (k3 >= 1 ==> ranks[k3]
                                == ranks[self.steps@[k3].came_from as int] + 1
                            && self.tile_closed(self.steps@[
                                self.steps@[k3].came_from as int].pos))
                    }),
                    forall|p: Point|
                        in_bounds_spec(self.tile_grid, p.x as int, p.y as int) || p == to ==>
                            #[trigger] call_requires(f, (p,)),
                decreases 6 - di,
            {
                let next_direction = dirs[di];
                di = di + 1;
                let next = match self.tile_grid.go(cur_pos, next_direction, 1) {
                    Some(n) => n,
                    None => { continue; },
                };
                if self.is_closed(next) {
                    continue;
                }

                let verdict2 = f(next);
                let base_cost = match verdict2 {
                    TileState::Blocked => { continue; },
                    TileState::Passable(c) => c,
                };
                proof {
                    assert(call_ensures(f, (next,), TileState::Passable(base_cost)));
                    let q = hex_step(cur_pos.x as int, cur_pos.y as int, next_direction);
                    assert(go_n(q.0, q.1, next_direction, 0) == q);
                    assert(go_n(cur_pos.x as int, cur_pos.y as int, next_direction, 1) == q);
                    assert((next.x as int, next.y as int) == q);
                }
                let next_cost0 = base_cost.checked_add(cur_cost) ;
                let next_cost1 = match next_cost0 {
                    Some(c) => c.checked_add(50),
                    None => None,
                };
                let mut next_cost = match next_cost1 {
                    Some(c) => c,
                    None => u32::MAX,
                };
                // Penalty for changing direction.
                if smooth && !dir_eq(next_direction, cur_dir) {
                    next_cost = if next_cost < u32::MAX - 10 { next_cost + 10 } else { u32::MAX };
                }

                // Is `next` already in the workspace?
                let mut neighbor: usize = 0;
                let mut have_neighbor = false;
                let mut k2: usize = 0;
                while k2 < self.steps.len()
                    invariant
                        k2 <= self.steps@.len(),
                        have_neighbor ==> neighbor < self.steps@.len(),
                        have_neighbor ==> self.steps@[neighbor as int].pos == next,
                    decreases self.steps@.len() - k2,
                {
                    if point_eq(self.steps[k2].pos, next) {
                        neighbor = k2;
                        have_neighbor = true;
                        break;
                    }
                    k2 = k2 + 1;
                }

                if have_neighbor {
                    if next_cost < self.steps[neighbor].cost {
                        let old_step = self.steps[neighbor];
                        let new_step = Step {
                            pos: old_step.pos,
                            came_from: best,
                            direction: next_direction,
                            cost: next_cost,
                            estimate: old_step.estimate,
                        };
                        let ghost pre = self.steps@;
                        let ghost pre_ranks = ranks;
                        self.steps[neighbor] = new_step;
                        proof {
                            ranks = ranks.update(neighbor as int, ranks[best as int] + 1);
                            let post = self.steps@;
                            assert forall|k3: int| 1 <= k3 < post.len() implies
                                #[trigger] step_ok(post, f, k3) by {
                                assert(step_ok(pre, f, k3) || k3 == neighbor as int);
                                let cf = post[k3].came_from as int;
                                assert(post[cf].pos == pre[cf].pos);
                                if k3 == neighbor as int {
                                    assert(post[k3].pos == next);
                                }
                            }
                            assert(!self.tile_closed(next));
                            assert(pre_ranks[0] == 0 && neighbor as int != 0);
                            assert forall|k3: int| 0 <= k3 < post.len() implies ({
                                &&& 0 <= ranks[k3] <= iters
                                &&& (self.tile_closed(post[k3].pos) ==> ranks[k3] < iters)
                                &&& (k3 >= 1 ==> ranks[k3]
                                        == ranks[post[k3].came_from as int] + 1
                                    && self.tile_closed(post[
                                        post[k3].came_from as int].pos))
                            }) by {
                                assert(pre_ranks[k3] <= iters);
                                assert(pre_ranks[best as int] < iters);
                                let cf = post[k3].came_from as int;
                                assert(pre_ranks[cf] <= iters);
                                if k3 == neighbor as int {
                                    assert(cf == best as int);
                                    assert(post[cf] == pre[cf]);
                                } else {
                                    assert(post[k3] == pre[k3]);
                                    assert(ranks[k3] == pre_ranks[k3]);
                                    if k3 >= 1 {
                                        assert(self.tile_closed(pre[cf].pos));
                                        assert(cf != neighbor as int);
                                        assert(post[cf].pos == pre[cf].pos);
                                        assert(ranks[cf] == pre_ranks[cf]);
                                    }
                                }
                            }
                            assert forall|idx: int| #[trigger] closed_lins.contains(idx) implies
                                exists|k3: int| 0 <= k3 < post.len()
                                    && lin_of(self.tile_grid, post[k3].pos) == idx by {
                                let k0 = choose|k3: int| 0 <= k3 < pre.len()
                                    && lin_of(self.tile_grid, pre[k3].pos) == idx;
                                assert(post[k0].pos == pre[k0].pos);
                            }
                        }
                    }
                } else {
                    if self.steps.len() >= self.max_depth {
                        return None;
                    }
                    let estimate = self.estimate(next, to);
                    let ghost pre = self.steps@;
                    self.steps.push(Step {
                        pos: next,
                        came_from: best,
                        direction: next_direction,
                        cost: next_cost,
                        estimate,
                    });
                    proof {
                        let ghost pre_ranks = ranks;
                        ranks = ranks.push(ranks[best as int] + 1);
                        assert(!self.tile_closed(next));
                        assert(pre_ranks[best as int] < iters);
                        let post = self.steps@;
                        assert forall|k3: int| 1 <= k3 < post.len() implies
                            #[trigger] step_ok(post, f, k3) by {
                            if k3 < pre.len() {
                                assert(step_ok(pre, f, k3));
                                assert(post[k3] == pre[k3]);
                                assert(post[post[k3].came_from as int]
                                    == pre[pre[k3].came_from as int]);
                            } else {
                                assert(post[k3].pos == next);
                                assert(post[post[k3].came_from as int].pos == cur_pos);
                            }
                        }
                        assert forall|idx: int| #[trigger] closed_lins.contains(idx) implies
                            exists|k3: int| 0 <= k3 < post.len()
                                && lin_of(self.tile_grid, post[k3].pos) == idx by {
                            let k0 = choose|k3: int| 0 <= k3 < pre.len()
                                && lin_of(self.tile_grid, pre[k3].pos) == idx;
                            assert(post[k0] == pre[k0]);
                        }
                        assert forall|k3: int| 0 <= k3 < post.len() implies ({
                            &&& 0 <= ranks[k3] <= iters
                            &&& (self.tile_closed(post[k3].pos) ==> ranks[k3] < iters)
                            &&& (k3 >= 1 ==> ranks[k3]
                                    == ranks[post[k3].came_from as int] + 1
                                && self.tile_closed(post[
                                    post[k3].came_from as int].pos))
                        }) by {
                            if k3 < pre.len() {
                                assert(pre_ranks[k3] <= iters);
                                assert(ranks[k3] == pre_ranks[k3]);
                                assert(post[k3] == pre[k3]);
                                if k3 >= 1 {
                                    let cf = post[k3].came_from as int;
                                    assert(pre_ranks[cf] <= iters);
                                    assert(post[cf] == pre[cf]);
                                }
                            } else {
                                assert(ranks[k3] == pre_ranks[best as int] + 1);
                                assert(post[k3].came_from == best);
                                assert(post[best as int] == pre[best as int]);
                            }
                        }
                    }
                }
            }
        }
        proof {
            lemma_card_witness(closed_lins, self.steps@, self.tile_grid);
            if self.max_depth < usize::MAX - 2 {
                assert(false);
            } else {
                assert(self.steps@.len() == self.max_depth);
            }
        }
        None
    }
}

/// Cost plus estimate, saturating.
fn total_cost(s: &Step) -> (r: u32)
    ensures
        r == if s.cost + s.estimate <= u32::MAX { s.cost + s.estimate } else { u32::MAX as int },
{
    match s.cost.checked_add(s.estimate) {
        Some(c) => c,
        None => u32::MAX,
    }
}

fn dir_eq(a: Direction, b: Direction) -> (r: bool)
    ensures
        r == (a == b),
{
    a == b
}

fn point_eq(a: Point, b: Point) -> (r: bool)
    ensures
        r == (a == b),
{
    a.x == b.x && a.y == b.y
}

} // verus!
