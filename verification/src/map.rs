//! The tile grid that both engines read: dimensions, coordinate to index
//! conversion, opacity and walkability queries, and neighbor enumeration
//! with movement costs.
//!
//! Costs are fixed-point integers: a cardinal step costs 100 units and a
//! diagonal step 145 units (roughly 100 times the diagonal of a unit cell).

use vstd::prelude::*;
use crate::num::isqrt_u64;

verus! {

/// A cardinal step costs this many fixed-point units.
pub const CARDINAL_COST: u32 = 100;

/// A diagonal step costs this many fixed-point units (about 1.45 cardinal steps).
pub const DIAGONAL_COST: u32 = 145;

/// Largest accepted width or height of a grid, so that index and distance
/// arithmetic stays well inside the machine integer ranges.
pub const MAX_DIM: i32 = 4096;

#[derive(PartialEq, Eq, Structural, Clone, Copy, Debug)]
pub enum TileType {
    Wall,
    Floor,
}

/// A rectangular tile grid in row-major order. `tiles` drives line of sight
/// (walls are opaque); `blocked` drives movement.
pub struct GridMap {
    pub tiles: Vec<TileType>,
    pub width: i32,
    pub height: i32,
    pub blocked: Vec<bool>,
}

/// Floor of the mathematical square root of a non-negative integer.
pub open spec fn sqrt_floor(v: int) -> int {
    choose|r: int| 0 <= r && #[trigger] (r * r) <= v && v < (r + 1) * (r + 1)
}

/// The characterization of `sqrt_floor` pins a unique value.
pub proof fn lemma_sqrt_floor_unique(v: int, r: int)
    requires
        0 <= r,
        r * r <= v,
        v < (r + 1) * (r + 1),
    ensures
        sqrt_floor(v) == r,
{
    assert(0 <= r && r * r <= v && v < (r + 1) * (r + 1));
    let c = sqrt_floor(v);
    assert(0 <= c && c * c <= v && v < (c + 1) * (c + 1));
    if c < r {
        assert((c + 1) * (c + 1) <= r * r) by (nonlinear_arith)
            requires 0 <= c, 0 <= r, c + 1 <= r;
    }
    if r < c {
        assert((r + 1) * (r + 1) <= c * c) by (nonlinear_arith)
            requires 0 <= c, 0 <= r, r + 1 <= c;
    }
}

impl GridMap {
    /// Structural well-formedness: positive bounded dimensions and both
    /// per-cell vectors exactly covering the grid.
    pub open spec fn wf(self) -> bool {
        &&& 1 <= self.width <= MAX_DIM
        &&& 1 <= self.height <= MAX_DIM
        &&& self.tiles@.len() == self.width * self.height
        &&& self.blocked@.len() == self.width * self.height
    }

    /// Number of cells of the grid.
    pub open spec fn total_spec(self) -> int {
        self.width * self.height
    }

    pub open spec fn spec_in_bounds(self, x: int, y: int) -> bool {
        0 <= x < self.width && 0 <= y < self.height
    }

    /// Row-major linear index of the cell at `(x, y)`.
    pub open spec fn idx_of(self, x: int, y: int) -> int {
        y * self.width + x
    }

    pub open spec fn x_of(self, idx: int) -> int {
        idx % (self.width as int)
    }

    pub open spec fn y_of(self, idx: int) -> int {
        idx / (self.width as int)
    }

    pub open spec fn opaque_at(self, idx: int) -> bool {
        self.tiles@[idx] == TileType::Wall
    }

    pub open spec fn blocked_at(self, idx: int) -> bool {
        self.blocked@[idx]
    }

    /// A cell a moving agent may step onto: strictly inside the left and top
    /// border and not blocked.
    pub open spec fn exit_ok(self, x: int, y: int) -> bool {
        &&& 1 <= x < self.width
        &&& 1 <= y < self.height
        &&& !self.blocked_at(self.idx_of(x, y))
    }

    /// A grid with every tile set to `tile` and no cell blocked.
    pub fn new(width: i32, height: i32, tile: TileType) -> (r: GridMap)
        requires
            1 <= width <= MAX_DIM,
            1 <= height <= MAX_DIM,
        ensures
            r.wf(),
            r.width == width,
            r.height == height,
            forall|i: int| 0 <= i < r.total_spec() ==> r.tiles@[i] == tile,
            forall|i: int| 0 <= i < r.total_spec() ==> !r.blocked_at(i),
    {
        proof {
            assert((width as int) * (height as int) <= 4096 * 4096) by (nonlinear_arith)
                requires 1 <= width <= 4096, 1 <= height <= 4096;
        }
        let count: usize = (width as usize) * (height as usize);
        let mut tiles: Vec<TileType> = Vec::new();
        let mut blocked: Vec<bool> = Vec::new();
        let mut i: usize = 0;
        while i < count
            invariant
                i <= count,
                tiles@.len() == i,
                blocked@.len() == i,
                forall|j: int| 0 <= j < i ==> tiles@[j] == tile,
                forall|j: int| 0 <= j < i ==> !blocked@[j],
            decreases count - i,
        {
            tiles.push(tile);
            blocked.push(false);
            i = i + 1;
        }
        GridMap { tiles, width, height, blocked }
    }

    /// Translates an x and y coordinate to an index in the tile vector.
    pub fn xy_idx(&self, x: i32, y: i32) -> (r: usize)
        requires
            self.wf(),
            self.spec_in_bounds(x as int, y as int),
        ensures
            r == self.idx_of(x as int, y as int),
            r < self.total_spec(),
    {
        proof {
            assert((y as int) * (self.width as int) + (x as int) < self.width * self.height
                && (y as int) * (self.width as int) <= 4095 * 4096) by (nonlinear_arith)
                requires
                    0 <= y <= self.height - 1,
                    0 <= x <= self.width - 1,
                    1 <= self.width <= 4096,
                    self.height <= 4096;
        }
        (y as usize) * (self.width as usize) + (x as usize)
    }

    /// The coordinates of a linear index: the exact inverse of `xy_idx`.
    pub fn idx_xy(&self, idx: usize) -> (r: (i32, i32))
        requires
            self.wf(),
            idx < self.total_spec(),
        ensures
            r.0 == self.x_of(idx as int),
            r.1 == self.y_of(idx as int),
            self.spec_in_bounds(r.0 as int, r.1 as int),
            self.idx_of(r.0 as int, r.1 as int) == idx,
    {
        let w: usize = self.width as usize;
        let x: usize = idx % w;
        let y: usize = idx / w;
        proof {
            assert((idx as int) / (self.width as int) < self.height) by (nonlinear_arith)
                requires
                    1 <= self.width,
                    0 <= idx,
                    idx < self.width * self.height;
            vstd::arithmetic::div_mod::lemma_fundamental_div_mod(idx as int, self.width as int);
            assert(((idx as int) / (self.width as int)) * (self.width as int)
                == (self.width as int) * ((idx as int) / (self.width as int)))
                by (nonlinear_arith);
        }
        (x as i32, y as i32)
    }

    pub fn in_bounds(&self, x: i32, y: i32) -> (r: bool)
        ensures
            r == self.spec_in_bounds(x as int, y as int),
    {
        x >= 0 && x < self.width && y >= 0 && y < self.height
    }

    pub fn is_opaque(&self, idx: usize) -> (r: bool)
        requires
            self.wf(),
            idx < self.total_spec(),
        ensures
            r == self.opaque_at(idx as int),
    {
        self.tiles[idx] == TileType::Wall
    }

    pub fn is_blocked(&self, idx: usize) -> (r: bool)
        requires
            self.wf(),
            idx < self.total_spec(),
        ensures
            r == self.blocked_at(idx as int),
    {
        self.blocked[idx]
    }

    /// Overwrites one tile, leaving everything else as it was.
    pub fn set_tile(&mut self, x: i32, y: i32, tile: TileType)
        requires
            old(self).wf(),
            old(self).spec_in_bounds(x as int, y as int),
        ensures
            final(self).wf(),
            final(self).width == old(self).width,
            final(self).height == old(self).height,
            final(self).blocked == old(self).blocked,
            final(self).tiles@ == old(self).tiles@.update(
                old(self).idx_of(x as int, y as int), tile),
    {
        let idx: usize = self.xy_idx(x, y);
        self.tiles.set(idx, tile);
    }

    /// Overwrites one movement flag, leaving everything else as it was.
    pub fn set_blocked(&mut self, idx: usize, b: bool)
        requires
            old(self).wf(),
            idx < old(self).total_spec(),
        ensures
            final(self).wf(),
            final(self).width == old(self).width,
            final(self).height == old(self).height,
            final(self).tiles == old(self).tiles,
            final(self).blocked@ == old(self).blocked@.update(idx as int, b),
    {
        self.blocked.set(idx, b);
    }

    /// Marks every wall tile as blocking movement and every other tile as free.
    pub fn populate_blocked(&mut self)
        requires
            old(self).wf(),
        ensures
            final(self).wf(),
            final(self).width == old(self).width,
            final(self).height == old(self).height,
            final(self).tiles == old(self).tiles,
            final(self).blocked@.len() == old(self).blocked@.len(),
            forall|i: int| 0 <= i < final(self).total_spec()
                ==> final(self).blocked_at(i) == final(self).opaque_at(i),
    {
        let count: usize = self.tiles.len();
        let mut i: usize = 0;
        while i < count
            invariant
                i <= count,
                self.wf(),
                count == self.total_spec(),
                self.width == old(self).width,
                self.height == old(self).height,
                self.tiles == old(self).tiles,
                self.blocked@.len() == old(self).blocked@.len(),
                forall|j: int| 0 <= j < i
                    ==> self.blocked@[j] == (self.tiles@[j] == TileType::Wall),
            decreases count - i,
        {
            let b: bool = self.tiles[i] == TileType::Wall;
            self.blocked.set(i, b);
            i = i + 1;
        }
        proof {
            assert forall|j: int| 0 <= j < self.total_spec()
                implies self.blocked_at(j) == self.opaque_at(j) by {
                assert(self.blocked@[j] == (self.tiles@[j] == TileType::Wall));
            }
        }
    }

    /// Whether a moving agent may step onto `(x, y)`.
    fn is_exit_valid(&self, x: i32, y: i32) -> (r: bool)
        requires
            self.wf(),
        ensures
            r == self.exit_ok(x as int, y as int),
    {
        if x < 1 || x > self.width - 1 || y < 1 || y > self.height - 1 {
            return false;
        }
        let idx: usize = self.xy_idx(x, y);
        !self.blocked[idx]
    }
}

} // verus!

verus! {

/// Some entry of an exit list names the cell `to` with cost `cost`.
pub open spec fn seq_has_exit(s: Seq<(usize, u32)>, to: int, cost: int) -> bool {
    exists|j: int| #![trigger s[j]] 0 <= j < s.len() && s[j].0 == to && s[j].1 == cost
}

impl GridMap {
    /// Cells `a` and `b` are distinct and touch, diagonals included.
    pub open spec fn adjacent_omni(self, a: int, b: int) -> bool {
        let dx = self.x_of(b) - self.x_of(a);
        let dy = self.y_of(b) - self.y_of(a);
        &&& 0 <= a < self.total_spec()
        &&& 0 <= b < self.total_spec()
        &&& -1 <= dx <= 1
        &&& -1 <= dy <= 1
        &&& (dx != 0 || dy != 0)
    }

    /// Cells `a` and `b` share an edge (no diagonals).
    pub open spec fn adjacent_cardinal(self, a: int, b: int) -> bool {
        let dx = self.x_of(b) - self.x_of(a);
        let dy = self.y_of(b) - self.y_of(a);
        &&& self.adjacent_omni(a, b)
        &&& (dx == 0 || dy == 0)
    }

    /// `(to, cost)` is a legal omnidirectional move out of `from`.
    pub open spec fn is_omni_exit(self, from: int, to: int, cost: int) -> bool {
        let dx = self.x_of(to) - self.x_of(from);
        let dy = self.y_of(to) - self.y_of(from);
        &&& self.adjacent_omni(from, to)
        &&& self.exit_ok(self.x_of(to), self.y_of(to))
        &&& cost == if dx != 0 && dy != 0 { DIAGONAL_COST as int } else { CARDINAL_COST as int }
    }

    /// `(to, cost)` is a legal cardinal move out of `from`.
    pub open spec fn is_cardinal_exit(self, from: int, to: int, cost: int) -> bool {
        &&& self.adjacent_cardinal(from, to)
        &&& self.exit_ok(self.x_of(to), self.y_of(to))
        &&& cost == CARDINAL_COST as int
    }

    /// Squared Euclidean distance between two cells, by coordinates.
    pub open spec fn dist2_of(self, a: int, b: int) -> int {
        let dx = self.x_of(a) - self.x_of(b);
        let dy = self.y_of(a) - self.y_of(b);
        dx * dx + dy * dy
    }

    /// Linear indexing and the coordinate pair are exact inverses.
    pub proof fn lemma_coords(self, x: int, y: int)
        requires
            self.wf(),
            0 <= x < self.width,
            0 <= y < self.height,
        ensures
            self.x_of(self.idx_of(x, y)) == x,
            self.y_of(self.idx_of(x, y)) == y,
            0 <= self.idx_of(x, y) < self.total_spec(),
    {
        let w = self.width as int;
        let h = self.height as int;
        assert(0 <= y * w + x && y * w + x < w * h) by (nonlinear_arith)
            requires 0 <= x < w, 0 <= y < h, 1 <= w;
        assert(w * h == self.width * self.height);
        vstd::arithmetic::div_mod::lemma_fundamental_div_mod_converse(y * w + x, w, y, x);
    }

    /// Checks one neighbor offset and, if the move is legal, appends it to
    /// the exit list with the given cost.
    fn try_push_exit(&self, exits: &mut Vec<(usize, u32)>, idx: usize, dx: i32, dy: i32, cost: u32)
        requires
            self.wf(),
            idx < self.total_spec(),
            -1 <= dx <= 1,
            -1 <= dy <= 1,
            dx != 0 || dy != 0,
            cost == if dx != 0 && dy != 0 { DIAGONAL_COST as int } else { CARDINAL_COST as int },
        ensures
            final(exits)@.len() >= old(exits)@.len(),
            forall|j: int| 0 <= j < old(exits)@.len()
                ==> final(exits)@[j] == old(exits)@[j],
            forall|j: int| #![trigger final(exits)@[j]] old(exits)@.len() <= j < final(exits)@.len()
                ==> self.is_omni_exit(idx as int, final(exits)@[j].0 as int,
                        final(exits)@[j].1 as int)
                    && final(exits)@[j].0 < self.total_spec()
                    && ((dx == 0 || dy == 0)
                        ==> self.is_cardinal_exit(idx as int, final(exits)@[j].0 as int,
                                final(exits)@[j].1 as int)),
            self.exit_ok(self.x_of(idx as int) + dx, self.y_of(idx as int) + dy)
                ==> seq_has_exit(final(exits)@,
                        self.idx_of(self.x_of(idx as int) + dx, self.y_of(idx as int) + dy),
                        cost as int),
    {
        let (x, y) = self.idx_xy(idx);
        if self.is_exit_valid(x + dx, y + dy) {
            proof {
                self.lemma_coords(x as int + dx as int, y as int + dy as int);
            }
            let to: usize = self.xy_idx(x + dx, y + dy);
            exits.push((to, cost));
            proof {
                let s = exits@;
                assert(s[s.len() - 1].0 == to && s[s.len() - 1].1 == cost);
            }
        }
    }

    /// The eight neighbors an agent may move to from `idx`, with their
    /// fixed-point costs: each returned entry is a legal move, and every
    /// open neighbor is returned.
    pub fn get_available_exits(&self, idx: usize) -> (r: Vec<(usize, u32)>)
        requires
            self.wf(),
            idx < self.total_spec(),
        ensures
            forall|j: int| #![trigger r@[j]] 0 <= j < r@.len()
                ==> self.is_omni_exit(idx as int, r@[j].0 as int, r@[j].1 as int)
                    && r@[j].0 < self.total_spec(),
            ({
                let x = self.x_of(idx as int);
                let y = self.y_of(idx as int);
                &&& self.exit_ok(x - 1, y) ==> seq_has_exit(r@, self.idx_of(x - 1, y), 100)
                &&& self.exit_ok(x + 1, y) ==> seq_has_exit(r@, self.idx_of(x + 1, y), 100)
                &&& self.exit_ok(x, y - 1) ==> seq_has_exit(r@, self.idx_of(x, y - 1), 100)
                &&& self.exit_ok(x, y + 1) ==> seq_has_exit(r@, self.idx_of(x, y + 1), 100)
                &&& self.exit_ok(x - 1, y - 1) ==> seq_has_exit(r@, self.idx_of(x - 1, y - 1), 145)
                &&& self.exit_ok(x + 1, y - 1) ==> seq_has_exit(r@, self.idx_of(x + 1, y - 1), 145)
                &&& self.exit_ok(x - 1, y + 1) ==> seq_has_exit(r@, self.idx_of(x - 1, y + 1), 145)
                &&& self.exit_ok(x + 1, y + 1) ==> seq_has_exit(r@, self.idx_of(x + 1, y + 1), 145)
            }),
    {
        let mut exits: Vec<(usize, u32)> = Vec::new();

        // Cardinal directions
        self.try_push_exit(&mut exits, idx, -1, 0, CARDINAL_COST);
        self.try_push_exit(&mut exits, idx, 1, 0, CARDINAL_COST);
        self.try_push_exit(&mut exits, idx, 0, -1, CARDINAL_COST);
        self.try_push_exit(&mut exits, idx, 0, 1, CARDINAL_COST);

        // Diagonals
        self.try_push_exit(&mut exits, idx, -1, -1, DIAGONAL_COST);
        self.try_push_exit(&mut exits, idx, 1, -1, DIAGONAL_COST);
        self.try_push_exit(&mut exits, idx, -1, 1, DIAGONAL_COST);
        self.try_push_exit(&mut exits, idx, 1, 1, DIAGONAL_COST);

        exits
    }

    /// The four edge neighbors an agent may move to from `idx`, at the
    /// cardinal cost: each returned entry is a legal move, and every open
    /// edge neighbor is returned.
    pub fn get_available_cardinal_exits(&self, idx: usize) -> (r: Vec<(usize, u32)>)
        requires
            self.wf(),
            idx < self.total_spec(),
        ensures
            forall|j: int| #![trigger r@[j]] 0 <= j < r@.len()
                ==> self.is_cardinal_exit(idx as int, r@[j].0 as int, r@[j].1 as int)
                    && r@[j].0 < self.total_spec(),
            ({
                let x = self.x_of(idx as int);
                let y = self.y_of(idx as int);
                &&& self.exit_ok(x - 1, y) ==> seq_has_exit(r@, self.idx_of(x - 1, y), 100)
                &&& self.exit_ok(x + 1, y) ==> seq_has_exit(r@, self.idx_of(x + 1, y), 100)
                &&& self.exit_ok(x, y - 1) ==> seq_has_exit(r@, self.idx_of(x, y - 1), 100)
                &&& self.exit_ok(x, y + 1) ==> seq_has_exit(r@, self.idx_of(x, y + 1), 100)
            }),
    {
        let mut exits: Vec<(usize, u32)> = Vec::new();

        self.try_push_exit(&mut exits, idx, -1, 0, CARDINAL_COST);
        self.try_push_exit(&mut exits, idx, 1, 0, CARDINAL_COST);
        self.try_push_exit(&mut exits, idx, 0, -1, CARDINAL_COST);
        self.try_push_exit(&mut exits, idx, 0, 1, CARDINAL_COST);

        exits
    }

    /// Squared Euclidean distance between two coordinate pairs.
    pub fn distance2d_pythagoras_squared(start_x: i32, start_y: i32, end_x: i32, end_y: i32)
        -> (r: u64)
        requires
            -0x10_0000 <= start_x <= 0x10_0000,
            -0x10_0000 <= start_y <= 0x10_0000,
            -0x10_0000 <= end_x <= 0x10_0000,
            -0x10_0000 <= end_y <= 0x10_0000,
        ensures
            r == (start_x - end_x) * (start_x - end_x)
                + (start_y - end_y) * (start_y - end_y),
            r <= 2 * 0x20_0000 * 0x20_0000,
    {
        let dx: i64 = (start_x as i64) - (end_x as i64);
        let dy: i64 = (start_y as i64) - (end_y as i64);
        proof {
            assert(0 <= dx * dx <= 0x20_0000 * 0x20_0000 && 0 <= dy * dy <= 0x20_0000 * 0x20_0000)
                by (nonlinear_arith)
                requires -0x20_0000 <= dx <= 0x20_0000, -0x20_0000 <= dy <= 0x20_0000;
        }
        ((dx * dx) + (dy * dy)) as u64
    }

    /// Euclidean distance between two coordinate pairs, in fixed-point
    /// units of one hundredth of a cell, rounded down.
    pub fn distance2d_pythagoras(start_x: i32, start_y: i32, end_x: i32, end_y: i32) -> (r: u32)
        requires
            -0x10_0000 <= start_x <= 0x10_0000,
            -0x10_0000 <= start_y <= 0x10_0000,
            -0x10_0000 <= end_x <= 0x10_0000,
            -0x10_0000 <= end_y <= 0x10_0000,
        ensures
            r == sqrt_floor(10000 * ((start_x - end_x) * (start_x - end_x)
                + (start_y - end_y) * (start_y - end_y))),
    {
        let d2: u64 = Self::distance2d_pythagoras_squared(start_x, start_y, end_x, end_y);
        let v: u64 = 10000 * d2;
        let root: u64 = isqrt_u64(v);
        proof {
            assert(root < 0x2000_0000) by (nonlinear_arith)
                requires root * root <= v, v < 0x2000_0000 * 0x2000_0000;
            lemma_sqrt_floor_unique(v as int, root as int);
        }
        root as u32
    }

    /// Fixed-point Euclidean distance between two cells: the pathfinding
    /// heuristic.
    pub fn get_pathing_distance(&self, idx1: usize, idx2: usize) -> (r: u32)
        requires
            self.wf(),
            idx1 < self.total_spec(),
            idx2 < self.total_spec(),
        ensures
            r == sqrt_floor(10000 * self.dist2_of(idx1 as int, idx2 as int)),
    {
        let (x1, y1) = self.idx_xy(idx1);
        let (x2, y2) = self.idx_xy(idx2);
        Self::distance2d_pythagoras(x1, y1, x2, y2)
    }
}

} // verus!
