//! One cell of the canvas grid: a fixed-size tile that owns either a live
//! pixel buffer (hot), a run-length-encoded copy of its pixels (swapped
//! out), or nothing yet (uninitialized), plus the strokes committed against
//! its coordinate space.
//!
//! A tile cycles between hot and swapped based on visibility alone; its
//! pixel contents survive every swap bit for bit.
use vstd::prelude::*;

use crate::codec::{compress, expand, expand_spec, wf_runs, Run};
use crate::stroke::StrokePath;

verus! {

/// Bytes in one tile's pixel buffer: one byte per pixel of a 1280 x 720
/// surface.
pub const TILE_BYTES: usize = 1280 * 720;

/// Pixel row length of a tile's buffer.
pub const TILE_ROW: usize = 1280;

/// Value a fresh tile is cleared to.
pub const CLEAR_BYTE: u8 = 0;

/// Value of the debug border painted along a fresh tile's four edges.
pub const BORDER_BYTE: u8 = 255;

/// The byte a freshly allocated tile holds at flat index `i`: the debug
/// border on the four edge rows and columns, the clear value elsewhere.
pub open spec fn fresh_tile_byte(i: int) -> u8 {
    let row = i / (TILE_ROW as int);
    let col = i % (TILE_ROW as int);
    if row == 0 || row == 720 - 1 || col == 0 || col == (TILE_ROW - 1) as int {
        BORDER_BYTE
    } else {
        CLEAR_BYTE
    }
}

/// The full pixel contents of a freshly allocated tile.
pub open spec fn fresh_tile_bytes() -> Seq<u8> {
    Seq::new(TILE_BYTES as nat, |i: int| fresh_tile_byte(i))
}

/// Build the pixel buffer a fresh tile is allocated with: cleared, with
/// the debug border painted along the four edges.
fn fresh_pixels() -> (px: Vec<u8>)
    ensures
        px@ == fresh_tile_bytes(),
{
    let mut px: Vec<u8> = Vec::new();
    let mut i: usize = 0;
    while i < TILE_BYTES
        invariant
            i <= TILE_BYTES,
            px@ =~= fresh_tile_bytes().take(i as int),
        decreases TILE_BYTES - i,
    {
        let row = i / TILE_ROW;
        let col = i % TILE_ROW;
        let b = if row == 0 || row == 720 - 1 || col == 0 || col == TILE_ROW - 1 {
            BORDER_BYTE
        } else {
            CLEAR_BYTE
        };
        px.push(b);
        proof {
            assert(px@ =~= fresh_tile_bytes().take(i + 1));
        }
        i = i + 1;
    }
    proof {
        assert(fresh_tile_bytes().take(TILE_BYTES as int) =~= fresh_tile_bytes());
    }
    px
}

/// What backs a tile right now: nothing yet, a live pixel buffer, or a
/// run-length-encoded copy of one.
pub enum TileStore {
    Uninitialized,
    Hot(Vec<u8>),
    Swapped(Vec<Run>),
}

/// One grid cell of the canvas.
pub struct Tile {
    store: TileStore,
    paths: Vec<StrokePath>,
}

impl Tile {
    /// The tile has a live pixel buffer.
    pub closed spec fn is_hot(self) -> bool {
        self.store is Hot
    }

    /// The tile's pixels are held only as a run-length-encoded buffer.
    pub closed spec fn is_swapped(self) -> bool {
        self.store is Swapped
    }

    /// The tile has never been allocated.
    pub closed spec fn is_uninitialized(self) -> bool {
        self.store is Uninitialized
    }

    /// The pixel contents the tile shows when resident: the live buffer if
    /// hot, the decoded stream if swapped, and the fresh cleared-with-border
    /// surface it would be allocated with if untouched.
    pub closed spec fn contents(self) -> Seq<u8> {
        match self.store {
            TileStore::Uninitialized => fresh_tile_bytes(),
            TileStore::Hot(px) => px@,
            TileStore::Swapped(runs) => expand_spec(runs@),
        }
    }

    /// The strokes committed against this tile.
    pub closed spec fn paths_seq(self) -> Seq<StrokePath> {
        self.paths@
    }

    /// A tile's backing always decodes to exactly one surface worth of
    /// bytes.
    pub closed spec fn wf(self) -> bool {
        match self.store {
            TileStore::Uninitialized => true,
            TileStore::Hot(px) => px@.len() == TILE_BYTES,
            TileStore::Swapped(runs) => wf_runs(runs@) && expand_spec(runs@).len() == TILE_BYTES,
        }
    }

    /// A tile is in exactly one of its three states.
    pub proof fn lemma_states(self)
        ensures
            self.is_hot() <==> (!self.is_swapped() && !self.is_uninitialized()),
            !(self.is_swapped() && self.is_uninitialized()),
            self.is_uninitialized() ==> self.contents() == fresh_tile_bytes(),
    {
    }

    /// A fresh, never-allocated tile with no strokes.
    pub fn new() -> (t: Tile)
        ensures
            t.wf(),
            t.is_uninitialized(),
            t.paths_seq().len() == 0,
            t.contents() == fresh_tile_bytes(),
    {
        Tile { store: TileStore::Uninitialized, paths: Vec::new() }
    }

    /// If the tile was never allocated, give it a live surface cleared to
    /// the background value with the debug border painted along its four
    /// edges; otherwise leave it untouched.
    pub fn ensure_allocated(&mut self)
        requires
            old(self).wf(),
        ensures
            final(self).wf(),
            final(self).is_hot() == (old(self).is_hot() || old(self).is_uninitialized()),
            final(self).is_swapped() == old(self).is_swapped(),
            final(self).contents() == old(self).contents(),
            final(self).paths_seq() == old(self).paths_seq(),
    {
        let uninit = match &self.store {
            TileStore::Uninitialized => true,
            _ => false,
        };
        if uninit {
            self.store = TileStore::Hot(fresh_pixels());
        }
    }

    /// Evict the live surface: read its pixels back, run-length encode
    /// them losslessly, and keep only the encoded buffer.
    pub fn swap_out(&mut self)
        requires
            old(self).wf(),
            old(self).is_hot(),
        ensures
            final(self).wf(),
            final(self).is_swapped(),
            final(self).contents() == old(self).contents(),
            final(self).paths_seq() == old(self).paths_seq(),
    {
        let runs = match &self.store {
            TileStore::Hot(px) => compress(px),
            _ => unreached(),
        };
        self.store = TileStore::Swapped(runs);
    }

    /// Bring a swapped-out tile back: decode the stored runs into a freshly
    /// allocated surface holding exactly the pixels it was evicted with,
    /// and discard the encoded buffer.
    pub fn swap_in(&mut self)
        requires
            old(self).wf(),
            old(self).is_swapped(),
        ensures
            final(self).wf(),
            final(self).is_hot(),
            final(self).contents() == old(self).contents(),
            final(self).paths_seq() == old(self).paths_seq(),
    {
        let px = match &self.store {
            TileStore::Swapped(runs) => expand(runs),
            _ => unreached(),
        };
        self.store = TileStore::Hot(px);
    }

    /// Paint: fill a rectangle of the live surface with one byte value.
    /// `x0..x0 + w` are the affected columns, `y0..y0 + h` the rows.
    pub fn fill_rect(&mut self, x0: usize, y0: usize, w: usize, h: usize, value: u8)
        requires
            old(self).wf(),
            old(self).is_hot(),
            x0 + w <= TILE_ROW,
            y0 + h <= 720,
        ensures
            final(self).wf(),
            final(self).is_hot(),
            final(self).paths_seq() == old(self).paths_seq(),
            final(self).contents().len() == TILE_BYTES,
            forall|r: int, c: int|
                0 <= r < 720 && 0 <= c < TILE_ROW ==> #[trigger] final(self).contents()[r * (
                TILE_ROW as int) + c] == if y0 <= r < y0 + h && x0 <= c < x0 + w {
                    value
                } else {
                    old(self).contents()[r * (TILE_ROW as int) + c]
                },
    {
        let mut taken = TileStore::Uninitialized;
        core::mem::swap(&mut self.store, &mut taken);
        let mut px = match taken {
            TileStore::Hot(px) => px,
            _ => unreached(),
        };
        let ghost orig_px = px@;
        let mut row = y0;
        while row < y0 + h
            invariant
                y0 <= row <= y0 + h,
                x0 + w <= TILE_ROW,
                y0 + h <= 720,
                px@.len() == TILE_BYTES,
                orig_px.len() == TILE_BYTES,
                forall|r: int, c: int|
                    0 <= r < 720 && 0 <= c < TILE_ROW ==> #[trigger] px@[r * (TILE_ROW as int)
                        + c] == if y0 <= r < row && x0 <= c < x0 + w {
                        value
                    } else {
                        orig_px[r * (TILE_ROW as int) + c]
                    },
            decreases y0 + h - row,
        {
            let mut col = x0;
            while col < x0 + w
                invariant
                    y0 <= row < y0 + h,
                    x0 <= col <= x0 + w,
                    x0 + w <= TILE_ROW,
                    y0 + h <= 720,
                    px@.len() == TILE_BYTES,
                    orig_px.len() == TILE_BYTES,
                    forall|r: int, c: int|
                        0 <= r < 720 && 0 <= c < TILE_ROW ==> #[trigger] px@[r * (TILE_ROW as int)
                            + c] == if (y0 <= r < row && x0 <= c < x0 + w) || (r == row && x0 <= c
                            < col) {
                            value
                        } else {
                            orig_px[r * (TILE_ROW as int) + c]
                        },
                decreases x0 + w - col,
            {
                let idx = row * TILE_ROW + col;
                proof {
                    lemma_row_col_bounds(row as int, col as int);
                }
                let slot = &mut px[idx];
                *slot = value;
                proof {
                    assert forall|r: int, c: int|
                        0 <= r < 720 && 0 <= c < TILE_ROW implies #[trigger] px@[r * (
                    TILE_ROW as int) + c] == if (y0 <= r < row && x0 <= c < x0 + w) || (r == row
                        && x0 <= c < col + 1) {
                        value
                    } else {
                        orig_px[r * (TILE_ROW as int) + c]
                    } by {
                        lemma_row_col_index(r, c, row as int, col as int);
                    }
                }
                col = col + 1;
            }
            row = row + 1;
        }
        self.store = TileStore::Hot(px);
    }

    /// Whether the tile currently has a live pixel buffer.
    pub fn hot(&self) -> (b: bool)
        ensures
            b == self.is_hot(),
    {
        match &self.store {
            TileStore::Hot(_) => true,
            _ => false,
        }
    }

    /// Whether the tile is held only as a run-length-encoded buffer.
    pub fn swapped(&self) -> (b: bool)
        ensures
            b == self.is_swapped(),
    {
        match &self.store {
            TileStore::Swapped(_) => true,
            _ => false,
        }
    }

    /// Whether the tile was never allocated.
    pub fn uninitialized(&self) -> (b: bool)
        ensures
            b == self.is_uninitialized(),
    {
        match &self.store {
            TileStore::Uninitialized => true,
            _ => false,
        }
    }

    /// Read one pixel byte of the live surface.
    pub fn pixel(&self, i: usize) -> (b: u8)
        requires
            self.wf(),
            self.is_hot(),
            i < TILE_BYTES,
        ensures
            b == self.contents()[i as int],
    {
        match &self.store {
            TileStore::Hot(px) => px[i],
            _ => unreached(),
        }
    }

    /// A copy of the tile's pixel contents as they would appear when
    /// resident, whatever state it is in.
    pub fn contents_vec(&self) -> (v: Vec<u8>)
        requires
            self.wf(),
        ensures
            v@ == self.contents(),
    {
        match &self.store {
            TileStore::Uninitialized => fresh_pixels(),
            TileStore::Hot(px) => {
                let mut v: Vec<u8> = Vec::new();
                let mut i: usize = 0;
                while i < px.len()
                    invariant
                        i <= px@.len(),
                        v@ =~= px@.take(i as int),
                    decreases px@.len() - i,
                {
                    v.push(px[i]);
                    i = i + 1;
                }
                proof {
                    assert(px@.take(px@.len() as int) =~= px@);
                }
                v
            },
            TileStore::Swapped(runs) => expand(runs),
        }
    }

    /// Number of strokes committed against this tile.
    pub fn path_count(&self) -> (n: usize)
        ensures
            n == self.paths_seq().len(),
    {
        self.paths.len()
    }

    /// Attach a committed stroke to this tile.
    pub fn add_path(&mut self, path: StrokePath)
        ensures
            final(self).paths_seq() == old(self).paths_seq().push(path),
            final(self).wf() == old(self).wf(),
            final(self).contents() == old(self).contents(),
            final(self).is_hot() == old(self).is_hot(),
            final(self).is_swapped() == old(self).is_swapped(),
            final(self).is_uninitialized() == old(self).is_uninitialized(),
    {
        self.paths.push(path);
    }

    /// Borrow the stroke at position `i`, mutably, for rendering.
    pub fn path_at(&mut self, i: usize) -> (p: &mut StrokePath)
        requires
            i < old(self).paths_seq().len(),
        ensures
            *p == old(self).paths_seq()[i as int],
            final(self).paths_seq() == old(self).paths_seq().update(i as int, *final(p)),
            final(self).wf() == old(self).wf(),
            final(self).contents() == old(self).contents(),
            final(self).is_hot() == old(self).is_hot(),
            final(self).is_swapped() == old(self).is_swapped(),
            final(self).is_uninitialized() == old(self).is_uninitialized(),
    {
        &mut self.paths[i]
    }
}

/// Row-major indexing: a pixel's flat index stays inside the buffer.
proof fn lemma_row_col_bounds(r: int, c: int)
    requires
        0 <= r < 720,
        0 <= c < TILE_ROW,
    ensures
        0 <= r * (TILE_ROW as int) + c < TILE_BYTES,
{
    assert(r * (TILE_ROW as int) <= 719 * (TILE_ROW as int)) by (nonlinear_arith)
        requires
            0 <= r < 720,
    ;
    assert(r * (TILE_ROW as int) >= 0) by (nonlinear_arith)
        requires
            r >= 0,
    ;
}

/// Row-major indexing is injective: two pixel coordinates collide only if
/// they are the same coordinate.
proof fn lemma_row_col_index(r: int, c: int, row: int, col: int)
    requires
        0 <= r < 720,
        0 <= c < TILE_ROW,
        0 <= row < 720,
        0 <= col < TILE_ROW,
    ensures
        r * (TILE_ROW as int) + c == row * (TILE_ROW as int) + col <==> (r == row && c == col),
{
    assert(r * (TILE_ROW as int) + c == row * (TILE_ROW as int) + col <==> (r == row && c == col))
        by (nonlinear_arith)
        requires
            0 <= r < 720,
            0 <= c < TILE_ROW,
            0 <= row < 720,
            0 <= col < TILE_ROW,
    ;
}

} // verus!
