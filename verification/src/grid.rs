//! The region grid: a growable square matrix of fixed-size tiles covering
//! the part of the unbounded canvas plane touched so far, stored as a flat
//! row-major vector (`index == row * pitch + col`).
//!
//! Growth is by one ring at a time, in either of two directions. Growing
//! right/up appends a fresh bottom and right border and leaves every
//! existing tile at its old `(row, col)`. Growing left/down (triggered by a
//! negative viewport origin) prepends a fresh top and left border, shifts
//! every existing tile's row and column by one, and translates the viewport
//! origin by one tile extent so the same content stays in view. Keeping the
//! flat representation makes addressing O(1) arithmetic at the cost of
//! copying the grid on growth, which is done eagerly.
use vstd::prelude::*;

use crate::stroke::StrokePath;
use crate::tile::Tile;
use crate::units::V2;
use crate::{TILE_H, TILE_W, WORLD_LIMIT};

verus! {

/// Side length of the grid a fresh engine starts with.
pub const INITIAL_PITCH: usize = 3;

/// Hard cap on the grid's side length; keeps every index computation inside
/// the machine's integer ranges.
pub const MAX_PITCH: usize = 65535;

/// Row-major lexicographic order of grid cells agrees with flat-index
/// order.
proof fn lemma_rm_lex(np: int, rr: int, cc: int, r: int, c: int)
    requires
        np > 0,
        0 <= cc < np,
        0 <= c <= np,
        0 <= rr,
        0 <= r,
    ensures
        (rr * np + cc < r * np + c) <==> (rr < r || (rr == r && cc < c)),
{
    assert((rr * np + cc < r * np + c) <==> (rr < r || (rr == r && cc < c)))
        by (nonlinear_arith)
        requires
            np > 0,
            0 <= cc < np,
            0 <= c <= np,
            0 <= rr,
            0 <= r,
    ;
}

/// A cell's flat index stays inside a `p * p` grid.
proof fn lemma_cell_in_range(p: int, r: int, c: int)
    requires
        0 <= r < p,
        0 <= c < p,
    ensures
        0 <= r * p + c < p * p,
{
    assert(0 <= r * p + c < p * p) by (nonlinear_arith)
        requires
            0 <= r < p,
            0 <= c < p,
    ;
}

/// Finishing a row of the regrow scan consumes the same number of old
/// tiles as standing at the start of the next row.
proof fn lemma_consumed_wrap(o: int, p: int, r: int)
    requires
        o == 0 || o == 1,
        p >= 1,
        0 <= r <= p,
    ensures
        consumed_at(o, p, r + 1, 0) == consumed_at(o, p, r, p + 1),
{
    assert((r - o + 1) * p == (r - o) * p + p) by (nonlinear_arith);
    assert(p * p == (p - 1) * p + p) by (nonlinear_arith);
}

/// The growable square grid of canvas tiles.
pub struct RegionGrid {
    tiles: Vec<Tile>,
    pitch: usize,
}

impl RegionGrid {
    /// Side length of the grid.
    pub closed spec fn spec_pitch(self) -> int {
        self.pitch as int
    }

    /// The tiles in row-major order.
    pub closed spec fn tiles_seq(self) -> Seq<Tile> {
        self.tiles@
    }

    /// Number of allocated tile slots; always a perfect square.
    pub open spec fn tile_count(self) -> int {
        self.tiles_seq().len() as int
    }

    /// The tile at `(row, col)`.
    pub open spec fn cell_spec(self, row: int, col: int) -> Tile {
        self.tiles_seq()[row * self.spec_pitch() + col]
    }

    /// Grid invariant: the flat store holds exactly `pitch * pitch` tiles,
    /// the pitch is within machine bounds, and every tile is well formed.
    pub closed spec fn wf(self) -> bool {
        &&& self.tiles@.len() == self.pitch * self.pitch
        &&& 1 <= self.pitch <= MAX_PITCH
        &&& forall|i: int| 0 <= i < self.tiles@.len() ==> (#[trigger] self.tiles@[i]).wf()
    }

    /// Bounds a well-formed grid guarantees.
    pub proof fn lemma_wf_bounds(self)
        requires
            self.wf(),
        ensures
            1 <= self.spec_pitch() <= MAX_PITCH,
            self.tile_count() == self.spec_pitch() * self.spec_pitch(),
    {
    }

    /// Every tile of a well-formed grid is itself well formed.
    pub proof fn lemma_cells_wf(self, row: int, col: int)
        requires
            self.wf(),
            0 <= row < self.spec_pitch(),
            0 <= col < self.spec_pitch(),
        ensures
            self.cell_spec(row, col).wf(),
            0 <= row * self.spec_pitch() + col < self.tile_count(),
            self.tile_count() <= MAX_PITCH * MAX_PITCH,
    {
        lemma_cell_in_range(self.spec_pitch(), row, col);
        assert(self.spec_pitch() * self.spec_pitch() <= (MAX_PITCH as int) * (MAX_PITCH as int))
            by (nonlinear_arith)
            requires
                1 <= self.spec_pitch() <= MAX_PITCH as int,
        ;
    }

    /// A fresh grid: 3 x 3 uninitialized tiles.
    pub fn new() -> (g: RegionGrid)
        ensures
            g.wf(),
            g.spec_pitch() == INITIAL_PITCH,
            g.tile_count() == INITIAL_PITCH * INITIAL_PITCH,
            forall|i: int|
                0 <= i < g.tile_count() ==> (#[trigger] g.tiles_seq()[i]).is_uninitialized()
                    && g.tiles_seq()[i].paths_seq().len() == 0,
    {
        let mut tiles: Vec<Tile> = Vec::new();
        let mut i: usize = 0;
        while i < INITIAL_PITCH * INITIAL_PITCH
            invariant
                i <= INITIAL_PITCH * INITIAL_PITCH,
                tiles@.len() == i,
                forall|j: int|
                    0 <= j < i ==> (#[trigger] tiles@[j]).wf() && tiles@[j].is_uninitialized()
                        && tiles@[j].paths_seq().len() == 0,
            decreases INITIAL_PITCH * INITIAL_PITCH - i,
        {
            tiles.push(Tile::new());
            i = i + 1;
        }
        RegionGrid { tiles, pitch: INITIAL_PITCH }
    }

    /// Pitch, as a value.
    pub fn pitch(&self) -> (p: usize)
        ensures
            p == self.spec_pitch(),
    {
        self.pitch
    }

    /// Number of allocated tile slots.
    pub fn len(&self) -> (n: usize)
        ensures
            n == self.tile_count(),
    {
        self.tiles.len()
    }

    /// Linear-index lookup of the tile at `(row, col)`.
    pub fn tile_at(&self, row: usize, col: usize) -> (t: &Tile)
        requires
            self.wf(),
            row < self.spec_pitch(),
            col < self.spec_pitch(),
        ensures
            *t == self.cell_spec(row as int, col as int),
            t.wf(),
    {
        proof {
            self.lemma_cells_wf(row as int, col as int);
        }
        &self.tiles[row * self.pitch + col]
    }

    /// Mutable linear-index lookup of the tile at `(row, col)`.
    pub fn tile_at_mut(&mut self, row: usize, col: usize) -> (t: &mut Tile)
        requires
            old(self).wf(),
            row < old(self).spec_pitch(),
            col < old(self).spec_pitch(),
        ensures
            *t == old(self).cell_spec(row as int, col as int),
            final(self).tiles_seq() == old(self).tiles_seq().update(
                row * old(self).spec_pitch() + col,
                *final(t),
            ),
            final(self).spec_pitch() == old(self).spec_pitch(),
    {
        proof {
            old(self).lemma_cells_wf(row as int, col as int);
        }
        let idx = row * self.pitch + col;
        &mut self.tiles[idx]
    }

    /// Replace the grid with one a ring larger. `leftward` false grows
    /// right/up: existing tiles keep their `(row, col)` and the fresh border
    /// is the new last row and column. `leftward` true grows left/down:
    /// every existing tile moves from `(r, c)` to `(r + 1, c + 1)` and the
    /// fresh border is row 0 and column 0.
    fn regrow(&mut self, leftward: bool)
        requires
            old(self).wf(),
            old(self).spec_pitch() < MAX_PITCH,
        ensures
            final(self).wf(),
            final(self).spec_pitch() == old(self).spec_pitch() + 1,
            forall|rr: int, cc: int|
                0 <= rr < final(self).spec_pitch() && 0 <= cc < final(self).spec_pitch()
                    ==> #[trigger] placed_ok(
                    final(self).tiles_seq(),
                    old(self).tiles_seq(),
                    offset_of(leftward),
                    old(self).spec_pitch(),
                    rr,
                    cc,
                ),
    {
        let ghost o: int = if leftward { 1 } else { 0 };
        let p = self.pitch;
        let np = p + 1;
        let mut old_tiles: Vec<Tile> = Vec::new();
        core::mem::swap(&mut self.tiles, &mut old_tiles);
        let ghost orig = old_tiles@;

        let mut tiles: Vec<Tile> = Vec::new();
        let ghost mut consumed: int = 0;
        let mut r: usize = 0;
        while r < np
            invariant
                np == p + 1,
                1 <= p < MAX_PITCH,
                r <= np,
                orig.len() == p * p,
                forall|i: int| 0 <= i < orig.len() ==> (#[trigger] orig[i]).wf(),
                o == if leftward { 1int } else { 0int },
                tiles@.len() == r * np,
                consumed == consumed_at(o, p as int, r as int, 0),
                0 <= consumed <= p * p,
                old_tiles@ =~= orig.skip(consumed),
                forall|rr: int, cc: int|
                    0 <= rr < np && 0 <= cc < np && rr < r ==> placed_ok(
                        tiles@,
                        orig,
                        o,
                        p as int,
                        rr,
                        cc,
                    ),
            decreases np - r,
        {
            let mut c: usize = 0;
            while c < np
                invariant
                    np == p + 1,
                    p < MAX_PITCH,
                    r < np,
                    c <= np,
                    orig.len() == p * p,
                    forall|i: int| 0 <= i < orig.len() ==> (#[trigger] orig[i]).wf(),
                    o == if leftward { 1int } else { 0int },
                    tiles@.len() == r * np + c,
                    consumed == consumed_at(o, p as int, r as int, c as int),
                    0 <= consumed <= p * p,
                    old_tiles@ =~= orig.skip(consumed),
                    forall|rr: int, cc: int|
                        0 <= rr < np && 0 <= cc < np && (rr < r || (rr == r && cc < c))
                            ==> placed_ok(tiles@, orig, o, p as int, rr, cc),
                decreases np - c,
            {
                let ghost tiles_prev = tiles@;
                let ghost consumed_prev = consumed;
                let is_border = if leftward {
                    r == 0 || c == 0
                } else {
                    r >= p || c >= p
                };
                if is_border {
                    tiles.push(Tile::new());
                } else {
                    proof {
                        lemma_cell_in_range(p as int, r - o, c - o);
                        assert(consumed == (r - o) * (p as int) + (c - o));
                        assert(orig.skip(consumed)[0] == orig[consumed]);
                    }
                    let t = old_tiles.remove(0);
                    tiles.push(t);
                    proof {
                        assert(old_tiles@ =~= orig.skip(consumed).remove(0));
                        assert(orig.skip(consumed).remove(0) =~= orig.skip(consumed + 1));
                        consumed = consumed + 1;
                    }
                }
                proof {
                    assert(consumed == consumed_at(o, p as int, r as int, c + 1));
                    assert forall|rr: int, cc: int|
                        0 <= rr < np && 0 <= cc < np && (rr < r || (rr == r && cc < c + 1))
                            implies placed_ok(tiles@, orig, o, p as int, rr, cc) by {
                        lemma_rm_lex(np as int, rr, cc, r as int, c as int);
                        if rr == r && cc == c {
                            assert(rr * (np as int) + cc == tiles_prev.len());
                        } else {
                            assert(rr * (np as int) + cc < tiles_prev.len());
                            assert(placed_ok(tiles_prev, orig, o, p as int, rr, cc));
                            assert(tiles@[rr * (np as int) + cc] == tiles_prev[rr * (np as int)
                                + cc]);
                        }
                    }
                }
                c = c + 1;
            }
            proof {
                assert((r + 1) * (np as int) == r * (np as int) + np) by (nonlinear_arith);
                lemma_consumed_wrap(o, p as int, r as int);
            }
            r = r + 1;
        }
        self.tiles = tiles;
        self.pitch = np;
        proof {
            assert(np * np == (p + 1) * (p + 1)) by (nonlinear_arith)
                requires
                    np == p + 1,
            ;
            assert forall|i: int| 0 <= i < self.tiles@.len() implies (
            #[trigger] self.tiles@[i]).wf() by {
                let rr = i / (np as int);
                let cc = i % (np as int);
                vstd::arithmetic::div_mod::lemma_fundamental_div_mod(i, np as int);
                vstd::arithmetic::div_mod::lemma_mod_bound(i, np as int);
                assert(0 <= rr < np) by (nonlinear_arith)
                    requires
                        0 <= i < np * np,
                        i == (np as int) * rr + cc,
                        0 <= cc < np,
                        np > 0,
                ;
                assert(placed_ok(self.tiles@, orig, o, p as int, rr, cc));
                if o <= rr < p + o && o <= cc < p + o {
                    lemma_cell_in_range(p as int, rr - o, cc - o);
                }
            }
        }
    }

    /// Grow right/up: append a fresh bottom/right border ring; every
    /// existing tile keeps its `(row, col)` and its contents.
    pub fn grow_out(&mut self)
        requires
            old(self).wf(),
            old(self).spec_pitch() < MAX_PITCH,
        ensures
            final(self).wf(),
            final(self).spec_pitch() == old(self).spec_pitch() + 1,
            forall|r: int, c: int|
                0 <= r < old(self).spec_pitch() && 0 <= c < old(self).spec_pitch()
                    ==> #[trigger] final(self).cell_spec(r, c) == old(self).cell_spec(r, c),
            forall|r: int, c: int|
                0 <= r < final(self).spec_pitch() && 0 <= c < final(self).spec_pitch() && (r >= old(
                self).spec_pitch() || c >= old(self).spec_pitch()) ==> (#[trigger] final(
                self).cell_spec(r, c)).is_uninitialized() && final(self).cell_spec(
                    r,
                    c,
                ).paths_seq().len() == 0,
    {
        self.regrow(false);
        proof {
            let p = old(self).spec_pitch();
            let orig = old(self).tiles_seq();
            assert forall|r: int, c: int|
                0 <= r < p && 0 <= c < p implies #[trigger] self.cell_spec(r, c) == old(
            self).cell_spec(r, c) by {
                assert(placed_ok(self.tiles_seq(), orig, offset_of(false), p, r, c));
            }
            assert forall|r: int, c: int|
                0 <= r < p + 1 && 0 <= c < p + 1 && (r >= p || c >= p) implies (#[trigger] self
                .cell_spec(r, c)).is_uninitialized() && self.cell_spec(r, c).paths_seq().len()
                == 0 by {
                assert(placed_ok(self.tiles_seq(), orig, offset_of(false), p, r, c));
            }
        }
    }

    /// Grow left/down: prepend a fresh top/left border ring; every existing
    /// tile moves from `(r, c)` to `(r + 1, c + 1)` with its contents. The
    /// caller translates the viewport origin by one tile extent so the view
    /// stays on the same content.
    pub fn grow_in(&mut self)
        requires
            old(self).wf(),
            old(self).spec_pitch() < MAX_PITCH,
        ensures
            final(self).wf(),
            final(self).spec_pitch() == old(self).spec_pitch() + 1,
            forall|r: int, c: int|
                1 <= r < final(self).spec_pitch() && 1 <= c < final(self).spec_pitch()
                    ==> #[trigger] final(self).cell_spec(r, c) == old(self).cell_spec(r - 1, c - 1),
            forall|r: int, c: int|
                0 <= r < final(self).spec_pitch() && 0 <= c < final(self).spec_pitch() && (r == 0
                    || c == 0) ==> (#[trigger] final(self).cell_spec(r, c)).is_uninitialized()
                    && final(self).cell_spec(r, c).paths_seq().len() == 0,
    {
        self.regrow(true);
        proof {
            let p = old(self).spec_pitch();
            let orig = old(self).tiles_seq();
            assert forall|r: int, c: int|
                1 <= r < p + 1 && 1 <= c < p + 1 implies #[trigger] self.cell_spec(r, c) == old(
            self).cell_spec(r - 1, c - 1) by {
                assert(placed_ok(self.tiles_seq(), orig, offset_of(true), p, r, c));
            }
            assert forall|r: int, c: int|
                0 <= r < p + 1 && 0 <= c < p + 1 && (r == 0 || c == 0) implies (#[trigger] self
                .cell_spec(r, c)).is_uninitialized() && self.cell_spec(r, c).paths_seq().len()
                == 0 by {
                assert(placed_ok(self.tiles_seq(), orig, offset_of(true), p, r, c));
            }
        }
    }

    /// Whether the viewport rectangle at `origin` lies inside the allocated
    /// world extent.
    pub fn covers(&self, origin: &V2) -> (b: bool)
        requires
            self.wf(),
            -COORD_LIMIT <= origin.0 <= COORD_LIMIT,
            -COORD_LIMIT <= origin.1 <= COORD_LIMIT,
        ensures
            b == covered_spec(*origin, self.spec_pitch()),
    {
        let pw = (self.pitch as i64) * TILE_W;
        let ph = (self.pitch as i64) * TILE_H;
        origin.0 >= 0 && origin.1 >= 0 && origin.0 + TILE_W <= pw && origin.1 + TILE_H <= ph
    }

    /// Called once per frame before compositing: grow the grid, one ring at
    /// a time, until the viewport rectangle is covered by allocated tiles.
    /// A negative origin component takes a left/down ring, which shifts
    /// every tile's index by one and translates the origin by one tile
    /// extent; anything else uncovered takes a right/up ring. Returns how
    /// many left/down rings were taken: the index shift every earlier tile
    /// moved by.
    pub fn ensure_covers(&mut self, origin: &mut V2) -> (shift: usize)
        requires
            old(self).wf(),
            old(self).spec_pitch() <= COVER_PITCH_LIMIT,
            -WORLD_LIMIT <= old(origin).0 <= WORLD_LIMIT,
            -WORLD_LIMIT <= old(origin).1 <= WORLD_LIMIT,
        ensures
            final(self).wf(),
            covered_spec(*final(origin), final(self).spec_pitch()),
            old(self).spec_pitch() + shift <= final(self).spec_pitch(),
            final(origin).0 == old(origin).0 + shift * TILE_W,
            final(origin).1 == old(origin).1 + shift * TILE_H,
            final(self).spec_pitch() <= old(self).spec_pitch() + neg_deficit(
                old(origin).0 as int,
                TILE_W as int,
            ) + neg_deficit(old(origin).1 as int, TILE_H as int) + out_deficit(
                old(origin).0 as int,
                TILE_W as int,
                old(self).spec_pitch(),
            ) + out_deficit(old(origin).1 as int, TILE_H as int, old(self).spec_pitch()),
            forall|r: int, c: int|
                shift <= r < old(self).spec_pitch() + shift && shift <= c < old(self).spec_pitch()
                    + shift ==> #[trigger] final(self).cell_spec(r, c) == old(self).cell_spec(
                    r - shift,
                    c - shift,
                ),
            forall|r: int, c: int|
                0 <= r < final(self).spec_pitch() && 0 <= c < final(self).spec_pitch() && !(shift
                    <= r < old(self).spec_pitch() + shift && shift <= c < old(self).spec_pitch()
                    + shift) ==> (#[trigger] final(self).cell_spec(r, c)).is_uninitialized()
                    && final(self).cell_spec(r, c).paths_seq().len() == 0,
    {
        proof {
            lemma_deficit_entry_bounds(origin.0 as int, TILE_W as int, WORLD_LIMIT as int);
            lemma_deficit_entry_bounds(origin.1 as int, TILE_H as int, WORLD_LIMIT as int);
            lemma_neg_deficit_nonneg(origin.0 as int, TILE_W as int);
            lemma_neg_deficit_nonneg(origin.1 as int, TILE_H as int);
        }
        let mut shift: usize = 0;
        while !self.covers(origin)
            invariant
                self.wf(),
                old(self).spec_pitch() + shift <= self.spec_pitch(),
                shift <= MAX_PITCH,
                origin.0 == old(origin).0 + shift * TILE_W,
                origin.1 == old(origin).1 + shift * TILE_H,
                -WORLD_LIMIT <= old(origin).0 <= WORLD_LIMIT,
                -WORLD_LIMIT <= old(origin).1 <= WORLD_LIMIT,
                old(self).wf(),
                self.spec_pitch() + neg_deficit(origin.0 as int, TILE_W as int) + neg_deficit(
                    origin.1 as int,
                    TILE_H as int,
                ) + out_deficit(origin.0 as int, TILE_W as int, self.spec_pitch()) + out_deficit(
                    origin.1 as int,
                    TILE_H as int,
                    self.spec_pitch(),
                ) <= MAX_PITCH,
                neg_deficit(origin.0 as int, TILE_W as int) >= 0,
                neg_deficit(origin.1 as int, TILE_H as int) >= 0,
                self.spec_pitch() + neg_deficit(origin.0 as int, TILE_W as int) + neg_deficit(
                    origin.1 as int,
                    TILE_H as int,
                ) + out_deficit(origin.0 as int, TILE_W as int, self.spec_pitch()) + out_deficit(
                    origin.1 as int,
                    TILE_H as int,
                    self.spec_pitch(),
                ) <= old(self).spec_pitch() + neg_deficit(old(origin).0 as int, TILE_W as int)
                    + neg_deficit(old(origin).1 as int, TILE_H as int) + out_deficit(
                    old(origin).0 as int,
                    TILE_W as int,
                    old(self).spec_pitch(),
                ) + out_deficit(old(origin).1 as int, TILE_H as int, old(self).spec_pitch()),
                forall|r: int, c: int|
                    shift <= r < old(self).spec_pitch() + shift && shift <= c < old(
                    self).spec_pitch() + shift ==> #[trigger] self.cell_spec(r, c) == old(
                    self).cell_spec(r - shift, c - shift),
                forall|r: int, c: int|
                    0 <= r < self.spec_pitch() && 0 <= c < self.spec_pitch() && !(shift <= r < old(
                    self).spec_pitch() + shift && shift <= c < old(self).spec_pitch() + shift)
                        ==> (#[trigger] self.cell_spec(r, c)).is_uninitialized()
                        && self.cell_spec(r, c).paths_seq().len() == 0,
            decreases
                    neg_deficit(origin.0 as int, TILE_W as int) + neg_deficit(
                        origin.1 as int,
                        TILE_H as int,
                    ),
                    out_deficit(origin.0 as int, TILE_W as int, self.spec_pitch()) + out_deficit(
                        origin.1 as int,
                        TILE_H as int,
                        self.spec_pitch(),
                    ),
        {
            let ghost prev = *self;
            let ghost prev_origin = *origin;
            let ghost prev_shift = shift as int;
            if origin.0 < 0 || origin.1 < 0 {
                proof {
                    if origin.0 < 0 {
                        lemma_neg_deficit_step(origin.0 as int, TILE_W as int);
                    }
                    if origin.1 < 0 {
                        lemma_neg_deficit_step(origin.1 as int, TILE_H as int);
                    }
                }
                self.grow_in();
                *origin = V2(origin.0 + TILE_W, origin.1 + TILE_H);
                shift = shift + 1;
                proof {
                    lemma_out_deficit_shift(
                        prev_origin.0 as int,
                        TILE_W as int,
                        prev.spec_pitch(),
                    );
                    lemma_out_deficit_shift(
                        prev_origin.1 as int,
                        TILE_H as int,
                        prev.spec_pitch(),
                    );
                    assert forall|r: int, c: int|
                        shift <= r < old(self).spec_pitch() + shift && shift <= c < old(
                        self).spec_pitch() + shift implies #[trigger] self.cell_spec(r, c) == old(
                    self).cell_spec(r - shift, c - shift) by {
                        assert(self.cell_spec(r, c) == prev.cell_spec(r - 1, c - 1));
                        assert(prev.cell_spec(r - 1, c - 1) == old(self).cell_spec(
                            r - shift,
                            c - shift,
                        ));
                    }
                    assert forall|r: int, c: int|
                        0 <= r < self.spec_pitch() && 0 <= c < self.spec_pitch() && !(shift <= r
                            < old(self).spec_pitch() + shift && shift <= c < old(self).spec_pitch()
                            + shift) implies (#[trigger] self.cell_spec(r, c)).is_uninitialized()
                        && self.cell_spec(r, c).paths_seq().len() == 0 by {
                        if r >= 1 && c >= 1 {
                            assert(self.cell_spec(r, c) == prev.cell_spec(r - 1, c - 1));
                            assert(prev.cell_spec(r - 1, c - 1).is_uninitialized()
                                && prev.cell_spec(r - 1, c - 1).paths_seq().len() == 0);
                        }
                    }
                }
            } else {
                proof {
                    lemma_needed_iff(origin.0 as int, TILE_W as int, self.spec_pitch());
                    lemma_needed_iff(origin.1 as int, TILE_H as int, self.spec_pitch());
                }
                self.grow_out();
                proof {
                    lemma_needed_iff(prev_origin.0 as int, TILE_W as int, self.spec_pitch());
                    lemma_needed_iff(prev_origin.1 as int, TILE_H as int, self.spec_pitch());
                    assert forall|r: int, c: int|
                        shift <= r < old(self).spec_pitch() + shift && shift <= c < old(
                        self).spec_pitch() + shift implies #[trigger] self.cell_spec(r, c) == old(
                    self).cell_spec(r - shift, c - shift) by {
                        assert(self.cell_spec(r, c) == prev.cell_spec(r, c));
                        assert(prev.cell_spec(r, c) == old(self).cell_spec(r - shift, c - shift));
                    }
                    assert forall|r: int, c: int|
                        0 <= r < self.spec_pitch() && 0 <= c < self.spec_pitch() && !(shift <= r
                            < old(self).spec_pitch() + shift && shift <= c < old(self).spec_pitch()
                            + shift) implies (#[trigger] self.cell_spec(r, c)).is_uninitialized()
                        && self.cell_spec(r, c).paths_seq().len() == 0 by {
                        if r < prev.spec_pitch() && c < prev.spec_pitch() {
                            assert(self.cell_spec(r, c) == prev.cell_spec(r, c));
                            assert(prev.cell_spec(r, c).is_uninitialized() && prev.cell_spec(
                                r,
                                c,
                            ).paths_seq().len() == 0);
                        }
                    }
                }
            }
        }
        shift
    }

    /// The presence-based paging pass, run once per frame after coverage:
    /// every tile overlapping the viewport rectangle is brought resident
    /// (allocated fresh, or decoded from its swapped-out form), and every
    /// tile not overlapping it is evicted to its run-length-encoded form. A
    /// tile is resident exactly when it is visible; pixel contents and
    /// strokes survive untouched.
    pub fn page(&mut self, origin: &V2)
        requires
            old(self).wf(),
            -COORD_LIMIT <= origin.0 <= COORD_LIMIT,
            -COORD_LIMIT <= origin.1 <= COORD_LIMIT,
        ensures
            final(self).wf(),
            final(self).spec_pitch() == old(self).spec_pitch(),
            forall|r: int, c: int|
                0 <= r < old(self).spec_pitch() && 0 <= c < old(self).spec_pitch() ==> {
                    let t = #[trigger] final(self).cell_spec(r, c);
                    let t0 = old(self).cell_spec(r, c);
                    &&& t.is_hot() == tile_visible_spec(*origin, r, c)
                    &&& t.contents() == t0.contents()
                    &&& t.paths_seq() == t0.paths_seq()
                    &&& t.is_uninitialized() == (t0.is_uninitialized() && !tile_visible_spec(
                        *origin,
                        r,
                        c,
                    ))
                },
    {
        let p = self.pitch;
        let mut row: usize = 0;
        while row < p
            invariant
                self.wf(),
                p == self.spec_pitch(),
                p == old(self).spec_pitch(),
                row <= p,
                -COORD_LIMIT <= origin.0 <= COORD_LIMIT,
                -COORD_LIMIT <= origin.1 <= COORD_LIMIT,
                forall|r: int, c: int|
                    0 <= r < p && 0 <= c < p && r >= row ==> #[trigger] self.cell_spec(r, c) == old(
                    self).cell_spec(r, c),
                forall|r: int, c: int|
                    0 <= r < row && 0 <= c < p ==> {
                        let t = #[trigger] self.cell_spec(r, c);
                        let t0 = old(self).cell_spec(r, c);
                        &&& t.is_hot() == tile_visible_spec(*origin, r, c)
                        &&& t.contents() == t0.contents()
                        &&& t.paths_seq() == t0.paths_seq()
                        &&& t.is_uninitialized() == (t0.is_uninitialized() && !tile_visible_spec(
                            *origin,
                            r,
                            c,
                        ))
                    },
            decreases p - row,
        {
            let mut col: usize = 0;
            while col < p
                invariant
                    self.wf(),
                    p == self.spec_pitch(),
                    p == old(self).spec_pitch(),
                    row < p,
                    col <= p,
                    -COORD_LIMIT <= origin.0 <= COORD_LIMIT,
                    -COORD_LIMIT <= origin.1 <= COORD_LIMIT,
                    forall|r: int, c: int|
                        0 <= r < p && 0 <= c < p && (r > row || (r == row && c >= col))
                            ==> #[trigger] self.cell_spec(r, c) == old(self).cell_spec(r, c),
                    forall|r: int, c: int|
                        0 <= r < p && 0 <= c < p && (r < row || (r == row && c < col)) ==> {
                            let t = #[trigger] self.cell_spec(r, c);
                            let t0 = old(self).cell_spec(r, c);
                            &&& t.is_hot() == tile_visible_spec(*origin, r, c)
                            &&& t.contents() == t0.contents()
                            &&& t.paths_seq() == t0.paths_seq()
                            &&& t.is_uninitialized() == (t0.is_uninitialized()
                                && !tile_visible_spec(*origin, r, c))
                        },
                decreases p - col,
            {
                let ghost prev = *self;
                let vis = tile_visible(origin, row, col);
                proof {
                    prev.lemma_cells_wf(row as int, col as int);
                }
                let t = self.tile_at_mut(row, col);
                if vis {
                    if t.uninitialized() {
                        t.ensure_allocated();
                    } else if t.swapped() {
                        t.swap_in();
                    }
                } else {
                    if t.hot() {
                        t.swap_out();
                    }
                }
                proof {
                    let pi = p as int;
                    assert forall|r: int, c: int|
                        0 <= r < pi && 0 <= c < pi && !(r == row && c == col) implies #[trigger] self
                        .cell_spec(r, c) == prev.cell_spec(r, c) by {
                        lemma_cell_in_range(pi, r, c);
                        lemma_cell_in_range(pi, row as int, col as int);
                        lemma_rm_lex_neq(pi, r, c, row as int, col as int);
                    }
                    assert forall|j: int|
                        0 <= j < self.tiles_seq().len() implies (#[trigger] self.tiles_seq()[j]).wf() by {
                        lemma_cell_in_range(pi, row as int, col as int);
                    }
                    assert(prev.cell_spec(row as int, col as int) == old(self).cell_spec(
                        row as int,
                        col as int,
                    ));
                    prev.cell_spec(row as int, col as int).lemma_states();
                    self.cell_spec(row as int, col as int).lemma_states();
                    assert(self.cell_spec(row as int, col as int).is_hot() == tile_visible_spec(
                        *origin,
                        row as int,
                        col as int,
                    ));
                    assert(self.cell_spec(row as int, col as int).contents() == old(
                        self,
                    ).cell_spec(row as int, col as int).contents());
                    assert(self.cell_spec(row as int, col as int).paths_seq() == old(
                        self,
                    ).cell_spec(row as int, col as int).paths_seq());
                    assert(self.cell_spec(row as int, col as int).is_uninitialized() == (old(
                        self,
                    ).cell_spec(row as int, col as int).is_uninitialized() && !tile_visible_spec(
                        *origin,
                        row as int,
                        col as int,
                    )));
                }
                col = col + 1;
            }
            row = row + 1;
        }
    }

    /// Every grid cell whose world rectangle intersects the viewport
    /// rectangle, in row-major order: exactly the cells the paging pass
    /// keeps resident.
    pub fn visible_indices(&self, origin: &V2) -> (v: Vec<(usize, usize)>)
        requires
            self.wf(),
            -COORD_LIMIT <= origin.0 <= COORD_LIMIT,
            -COORD_LIMIT <= origin.1 <= COORD_LIMIT,
        ensures
            forall|i: int|
                0 <= i < v@.len() ==> {
                    let rc = #[trigger] v@[i];
                    &&& rc.0 < self.spec_pitch()
                    &&& rc.1 < self.spec_pitch()
                    &&& tile_visible_spec(*origin, rc.0 as int, rc.1 as int)
                },
            forall|r: int, c: int|
                0 <= r < self.spec_pitch() && 0 <= c < self.spec_pitch() && #[trigger]
                tile_visible_spec(*origin, r, c) ==> v@.contains((r as usize, c as usize)),
            forall|i: int, j: int|
                0 <= i < j < v@.len() ==> (#[trigger] v@[i]).0 * self.spec_pitch() + v@[i].1 < (
                #[trigger] v@[j]).0 * self.spec_pitch() + v@[j].1,
    {
        let p = self.pitch;
        let mut v: Vec<(usize, usize)> = Vec::new();
        let mut row: usize = 0;
        while row < p
            invariant
                self.wf(),
                p == self.spec_pitch(),
                row <= p,
                -COORD_LIMIT <= origin.0 <= COORD_LIMIT,
                -COORD_LIMIT <= origin.1 <= COORD_LIMIT,
                forall|i: int|
                    0 <= i < v@.len() ==> {
                        let rc = #[trigger] v@[i];
                        &&& rc.0 < p
                        &&& rc.1 < p
                        &&& rc.0 * (p as int) + rc.1 < row * (p as int)
                        &&& tile_visible_spec(*origin, rc.0 as int, rc.1 as int)
                    },
                forall|r: int, c: int|
                    0 <= r < row && 0 <= c < p && #[trigger] tile_visible_spec(*origin, r, c)
                        ==> v@.contains((r as usize, c as usize)),
                forall|i: int, j: int|
                    0 <= i < j < v@.len() ==> (#[trigger] v@[i]).0 * (p as int) + v@[i].1 < (
                    #[trigger] v@[j]).0 * (p as int) + v@[j].1,
            decreases p - row,
        {
            let mut col: usize = 0;
            while col < p
                invariant
                    self.wf(),
                    p == self.spec_pitch(),
                    row < p,
                    col <= p,
                    -COORD_LIMIT <= origin.0 <= COORD_LIMIT,
                    -COORD_LIMIT <= origin.1 <= COORD_LIMIT,
                    forall|i: int|
                        0 <= i < v@.len() ==> {
                            let rc = #[trigger] v@[i];
                            &&& rc.0 < p
                            &&& rc.1 < p
                            &&& rc.0 * (p as int) + rc.1 < row * (p as int) + col
                            &&& tile_visible_spec(*origin, rc.0 as int, rc.1 as int)
                        },
                    forall|r: int, c: int|
                        0 <= r < p && 0 <= c < p && (r < row || (r == row && c < col))
                            && #[trigger] tile_visible_spec(*origin, r, c) ==> v@.contains(
                            (r as usize, c as usize),
                        ),
                    forall|i: int, j: int|
                        0 <= i < j < v@.len() ==> (#[trigger] v@[i]).0 * (p as int) + v@[i].1 < (
                        #[trigger] v@[j]).0 * (p as int) + v@[j].1,
                decreases p - col,
            {
                let ghost prev = v@;
                if tile_visible(origin, row, col) {
                    v.push((row, col));
                }
                proof {
                    assert forall|r: int, c: int|
                        0 <= r < p && 0 <= c < p && (r < row || (r == row && c < col + 1))
                            && #[trigger] tile_visible_spec(*origin, r, c) implies v@.contains(
                        (r as usize, c as usize),
                    ) by {
                        if r < row || (r == row && c < col) {
                            let k = choose|k: int|
                                0 <= k < prev.len() && prev[k] == (r as usize, c as usize);
                            assert(v@[k] == (r as usize, c as usize));
                        } else {
                            assert(v@[v@.len() - 1] == (r as usize, c as usize));
                        }
                    }
                    assert forall|i: int, j: int|
                        0 <= i < j < v@.len() implies (#[trigger] v@[i]).0 * (p as int) + v@[i].1
                        < (#[trigger] v@[j]).0 * (p as int) + v@[j].1 by {
                        lemma_rm_lex(
                            p as int,
                            v@[i].0 as int,
                            v@[i].1 as int,
                            v@[j].0 as int,
                            v@[j].1 as int,
                        );
                        if j == v@.len() - 1 && prev.len() < v@.len() {
                            lemma_rm_lex(
                                p as int,
                                v@[i].0 as int,
                                v@[i].1 as int,
                                row as int,
                                col as int,
                            );
                        }
                    }
                }
                col = col + 1;
            }
            proof {
                assert((row + 1) * (p as int) == row * (p as int) + p) by (nonlinear_arith);
            }
            row = row + 1;
        }
        v
    }

    /// Attach a committed stroke to the tile at `(row, col)`; every other
    /// cell is untouched, and the target keeps its state, contents and
    /// earlier strokes.
    pub fn add_path_at(&mut self, row: usize, col: usize, path: StrokePath)
        requires
            old(self).wf(),
            row < old(self).spec_pitch(),
            col < old(self).spec_pitch(),
        ensures
            final(self).wf(),
            final(self).spec_pitch() == old(self).spec_pitch(),
            forall|r: int, c: int|
                0 <= r < old(self).spec_pitch() && 0 <= c < old(self).spec_pitch() && !(r == row
                    && c == col) ==> #[trigger] final(self).cell_spec(r, c) == old(self).cell_spec(
                    r,
                    c,
                ),
            final(self).cell_spec(row as int, col as int).paths_seq() == old(self).cell_spec(
                row as int,
                col as int,
            ).paths_seq().push(path),
            final(self).cell_spec(row as int, col as int).contents() == old(self).cell_spec(
                row as int,
                col as int,
            ).contents(),
            final(self).cell_spec(row as int, col as int).is_hot() == old(self).cell_spec(
                row as int,
                col as int,
            ).is_hot(),
            final(self).cell_spec(row as int, col as int).is_uninitialized() == old(
                self,
            ).cell_spec(row as int, col as int).is_uninitialized(),
    {
        let ghost prev = *self;
        let t = self.tile_at_mut(row, col);
        t.add_path(path);
        proof {
            let pi = prev.spec_pitch();
            prev.lemma_cells_wf(row as int, col as int);
            assert forall|r: int, c: int|
                0 <= r < pi && 0 <= c < pi && !(r == row && c == col) implies #[trigger] self
                .cell_spec(r, c) == prev.cell_spec(r, c) by {
                lemma_cell_in_range(pi, r, c);
                lemma_cell_in_range(pi, row as int, col as int);
                lemma_rm_lex_neq(pi, r, c, row as int, col as int);
            }
            assert forall|j: int|
                0 <= j < self.tiles_seq().len() implies (#[trigger] self.tiles_seq()[j]).wf() by {
                lemma_cell_in_range(pi, row as int, col as int);
            }
        }
    }
}

/// Deficits of a coordinate one pan step away from a covered position are
/// at most one ring each.
pub proof fn lemma_pan_step_deficits(v: int, u: int, p: int)
    requires
        u >= 10,
        p >= 1,
        -5 <= v,
        v <= p * u - u + 5,
    ensures
        neg_deficit(v, u) <= 1,
        out_deficit(v, u, p) <= 1,
{
    if v < 0 {
        lemma_div_lt_iff(u - 1 - v, u, 2);
        assert(2 * u == u + u) by (nonlinear_arith);
    }
    lemma_div_lt_iff(v + 2 * u - 1, u, p + 2);
    assert((p + 2) * u == p * u + u + u) by (nonlinear_arith);
}

/// Distinct cell coordinates have distinct flat indices.
proof fn lemma_rm_lex_neq(p: int, rr: int, cc: int, r: int, c: int)
    requires
        0 <= rr < p,
        0 <= cc < p,
        0 <= r < p,
        0 <= c < p,
        !(rr == r && cc == c),
    ensures
        rr * p + cc != r * p + c,
{
    assert(rr * p + cc != r * p + c) by (nonlinear_arith)
        requires
            0 <= rr < p,
            0 <= cc < p,
            0 <= r < p,
            0 <= c < p,
            !(rr == r && cc == c),
    ;
}

/// Loose bound on any world coordinate that can arise while the grid
/// reshapes itself around a viewport within `WORLD_LIMIT`.
pub const COORD_LIMIT: i64 = 134217728;

/// Largest pitch `ensure_covers` accepts; leaves headroom under
/// `MAX_PITCH` for every ring a single call can add.
pub const COVER_PITCH_LIMIT: usize = 32768;

/// The viewport rectangle `[origin, origin + (W, H))` lies inside the
/// allocated `pitch x pitch` world extent.
pub open spec fn covered_spec(origin: V2, pitch: int) -> bool {
    &&& 0 <= origin.0
    &&& 0 <= origin.1
    &&& origin.0 + TILE_W <= pitch * TILE_W
    &&& origin.1 + TILE_H <= pitch * TILE_H
}

/// Rings of leftward/downward growth a negative coordinate still needs.
pub open spec fn neg_deficit(v: int, unit: int) -> int {
    if v >= 0 {
        0
    } else {
        (unit - 1 - v) / unit
    }
}

/// Smallest pitch whose extent holds `[v, v + unit)`.
pub open spec fn pos_needed(v: int, unit: int) -> int {
    (v + 2 * unit - 1) / unit
}

/// Rings of rightward/upward growth one coordinate still needs.
pub open spec fn out_deficit(v: int, unit: int, pitch: int) -> int {
    if pos_needed(v, unit) <= pitch {
        0
    } else {
        pos_needed(v, unit) - pitch
    }
}

/// `a / u < k` exactly when `a < k * u`.
proof fn lemma_div_lt_iff(a: int, u: int, k: int)
    requires
        u > 0,
    ensures
        (a / u < k) <==> (a < k * u),
{
    vstd::arithmetic::div_mod::lemma_fundamental_div_mod(a, u);
    vstd::arithmetic::div_mod::lemma_mod_bound(a, u);
    let q = a / u;
    let r = a % u;
    assert((q < k) <==> (u * q + r < k * u)) by (nonlinear_arith)
        requires
            u > 0,
            0 <= r < u,
    ;
}

/// One coordinate is inside the allocated extent exactly when the pitch
/// reaches what `pos_needed` asks for.
proof fn lemma_needed_iff(v: int, u: int, p: int)
    requires
        u > 0,
    ensures
        (v + u <= p * u) <==> (pos_needed(v, u) <= p),
{
    lemma_div_lt_iff(v + 2 * u - 1, u, p + 1);
    assert((p + 1) * u == p * u + u) by (nonlinear_arith);
}

/// Adding one tile extent to a coordinate while the grid gains a ring
/// leaves its rightward deficit unchanged.
proof fn lemma_out_deficit_shift(v: int, u: int, p: int)
    requires
        u > 0,
    ensures
        out_deficit(v + u, u, p + 1) == out_deficit(v, u, p),
{
    vstd::arithmetic::div_mod::lemma_div_plus_one(v + 2 * u - 1, u);
}

/// One ring of leftward growth pays one unit off a negative coordinate's
/// deficit.
proof fn lemma_neg_deficit_step(v: int, u: int)
    requires
        u > 0,
        v < 0,
    ensures
        neg_deficit(v, u) == neg_deficit(v + u, u) + 1,
        neg_deficit(v, u) >= 1,
{
    vstd::arithmetic::div_mod::lemma_div_plus_one(-1 - v, u);
    if v + u >= 0 {
        vstd::arithmetic::div_mod::lemma_basic_div(-1 - v, u);
    }
    lemma_div_lt_iff(u - 1 - v, u, 1);
    assert(1 * u == u) by (nonlinear_arith);
}

/// Deficits are never negative.
proof fn lemma_neg_deficit_nonneg(v: int, u: int)
    requires
        u > 0,
    ensures
        neg_deficit(v, u) >= 0,
{
    if v < 0 {
        lemma_div_lt_iff(u - 1 - v, u, 0);
        assert(0 * u == 0) by (nonlinear_arith);
    }
}

/// Bounds on the deficits of a coordinate within `hi` of zero.
proof fn lemma_deficit_entry_bounds(v: int, u: int, hi: int)
    requires
        u > 0,
        hi >= 0,
        -hi <= v <= hi,
    ensures
        neg_deficit(v, u) <= (u - 1 + hi) / u,
        pos_needed(v, u) <= (hi + 2 * u - 1) / u,
{
    if v < 0 {
        vstd::arithmetic::div_mod::lemma_div_is_ordered(u - 1 - v, u - 1 + hi, u);
    } else {
        lemma_div_lt_iff(u - 1 + hi, u, 0);
        assert(0 * u == 0) by (nonlinear_arith);
    }
    vstd::arithmetic::div_mod::lemma_div_is_ordered(v + 2 * u - 1, hi + 2 * u - 1, u);
}

/// The axis-aligned overlap test between the world rectangle of grid cell
/// `(row, col)` and the viewport rectangle at `origin`.
pub open spec fn tile_visible_spec(origin: V2, row: int, col: int) -> bool {
    let left1 = col * TILE_W;
    let top1 = row * TILE_H;
    &&& left1 + TILE_W >= origin.0
    &&& left1 < origin.0 + TILE_W
    &&& top1 < origin.1 + TILE_H
    &&& top1 + TILE_H >= origin.1
}

/// Whether the world rectangle of grid cell `(row, col)` intersects the
/// viewport rectangle at `origin`.
pub fn tile_visible(origin: &V2, row: usize, col: usize) -> (b: bool)
    requires
        row <= MAX_PITCH,
        col <= MAX_PITCH,
        -COORD_LIMIT <= origin.0 <= COORD_LIMIT,
        -COORD_LIMIT <= origin.1 <= COORD_LIMIT,
    ensures
        b == tile_visible_spec(*origin, row as int, col as int),
{
    let left1 = (col as i64) * TILE_W;
    let top1 = (row as i64) * TILE_H;
    left1 + TILE_W >= origin.0 && left1 < origin.0 + TILE_W && top1 < origin.1 + TILE_H && top1
        + TILE_H >= origin.1
}

/// Index shift a growth direction applies to existing tiles: one for a
/// left/down growth, zero for a right/up growth.
pub open spec fn offset_of(leftward: bool) -> int {
    if leftward {
        1
    } else {
        0
    }
}

/// How many tiles of the old grid a row-major scan of the new grid has
/// moved before reaching cell `(r, c)`: one per interior cell already
/// passed, where the interior occupies rows and columns `o .. p + o` of the
/// new grid.
pub open spec fn consumed_at(o: int, p: int, r: int, c: int) -> int {
    let rows_done = if r <= o {
        0
    } else if r >= p + o {
        p
    } else {
        r - o
    };
    let cols_done = if r < o || r >= p + o {
        0
    } else if c <= o {
        0
    } else if c >= p + o {
        p
    } else {
        c - o
    };
    rows_done * p + cols_done
}

/// What the regrow scan has placed at new cell `(rr, cc)`: the next old
/// tile in row-major order for interior cells, a fresh tile on the border.
pub open spec fn placed_ok(tiles: Seq<Tile>, orig: Seq<Tile>, o: int, p: int, rr: int, cc: int) -> bool {
    let np = p + 1;
    if o <= rr < p + o && o <= cc < p + o {
        tiles[rr * np + cc] == orig[(rr - o) * p + (cc - o)]
    } else {
        tiles[rr * np + cc].is_uninitialized() && tiles[rr * np + cc].paths_seq().len() == 0
            && tiles[rr * np + cc].wf()
    }
}

} // verus!
