//! The engine core: the per-frame decisions of the paint toy. The shell
//! around it polls the window, converts events to plain values, feeds them
//! in, renders the resident tiles from this state, and sleeps out the
//! frame; everything that decides — panning, color cycling, grid growth,
//! paging, stroke capture and commit — happens here.
use vstd::prelude::*;

use crate::grid::{
    covered_spec, neg_deficit, out_deficit, tile_visible_spec, RegionGrid, COVER_PITCH_LIMIT,
    INITIAL_PITCH,
};
use crate::input::{key_flag, Input};
use crate::stroke::{corrected_seq, StrokeBuffer};
use crate::tile::fresh_tile_bytes;
use crate::units::V2;
use crate::viewport::{pan, pan_spec, PanDirection};
use crate::{TILE_H, TILE_W, WORLD_LIMIT};

verus! {

/// Key identifier the shell maps the escape key to.
pub const KEY_ESCAPE: u32 = 1;

/// Key identifier for panning up.
pub const KEY_UP: u32 = 2;

/// Key identifier for panning down.
pub const KEY_DOWN: u32 = 3;

/// Key identifier for panning left.
pub const KEY_LEFT: u32 = 4;

/// Key identifier for panning right.
pub const KEY_RIGHT: u32 = 5;

/// Key identifier for cycling the red channel of the pen hue.
pub const KEY_HUE_R: u32 = 6;

/// Key identifier for cycling the green channel of the pen hue.
pub const KEY_HUE_G: u32 = 7;

/// Key identifier for cycling the blue channel of the pen hue.
pub const KEY_HUE_B: u32 = 8;

/// World units the viewport moves per held directional key per frame.
pub const PAN_STEP: i64 = 5;

/// Largest grid pitch a frame step accepts; the supported canvas is a few
/// thousand tiles across, bounded by the world coordinate range.
pub const ENGINE_PITCH_LIMIT: usize = 3000;

/// The shape a stroke is painted with.
#[derive(Clone, Copy, Debug, PartialEq, Eq, Structural)]
pub enum BrushMode {
    Normal,
    Squareish,
    WowSoEdgy,
    Eraser,
}

/// A platform event, reduced to the plain values the engine needs.
#[derive(Clone, Copy, Debug, PartialEq, Eq, Structural)]
pub enum InputEvent {
    Closed,
    KeyDown(u32),
    KeyUp(u32),
    PointerMoved(i64, i64),
    PointerPressed,
    PointerReleased,
}

/// One byte of the pen hue, cycled one step.
pub open spec fn hue_next(c: u8) -> u8 {
    if c == 255 {
        0
    } else {
        (c + 1) as u8
    }
}

/// The pen hue after one frame of held hue keys: the first held key of the
/// red/green/blue chain cycles its channel.
pub open spec fn cycled_color(c: (u8, u8, u8), held: Map<u32, bool>) -> (u8, u8, u8) {
    if key_flag(held, KEY_HUE_R) {
        (hue_next(c.0), c.1, c.2)
    } else if key_flag(held, KEY_HUE_G) {
        (c.0, hue_next(c.1), c.2)
    } else if key_flag(held, KEY_HUE_B) {
        (c.0, c.1, hue_next(c.2))
    } else {
        c
    }
}

/// Where the scanbox stands after one frame of held directional keys: the
/// first held key of the up/down/left/right chain pans one step.
pub open spec fn pan_from_keys(origin: V2, held: Map<u32, bool>) -> (int, int) {
    if key_flag(held, KEY_UP) {
        pan_spec(origin, PanDirection::Up, PAN_STEP as int)
    } else if key_flag(held, KEY_DOWN) {
        pan_spec(origin, PanDirection::Down, PAN_STEP as int)
    } else if key_flag(held, KEY_LEFT) {
        pan_spec(origin, PanDirection::Left, PAN_STEP as int)
    } else if key_flag(held, KEY_RIGHT) {
        pan_spec(origin, PanDirection::Right, PAN_STEP as int)
    } else {
        (origin.0 as int, origin.1 as int)
    }
}

/// Whether a pointer position lies inside the window, and so over a tile
/// the grid is sure to cover.
pub open spec fn in_window(p: V2) -> bool {
    &&& 0 <= p.0 < TILE_W
    &&& 0 <= p.1 < TILE_H
}

/// The whole engine state, threaded through the frame loop; no ambient
/// globals.
pub struct EngineState {
    pub is_running: bool,
    pub controller: Input,
    pub brush: BrushMode,
    pub color: (u8, u8, u8),
    pub cursor: V2,
    pub cursor_down: bool,
    pub cursor_commit: bool,
    pub scanbox: V2,
    pub grid: RegionGrid,
    pub stroke: StrokeBuffer,
}

impl EngineState {
    /// Frame-to-frame invariant: the grid is well formed, the viewport
    /// rectangle is covered by allocated tiles, the stroke buffer holds
    /// in-range samples, and a gesture is active whenever samples are still
    /// uncommitted or the pointer is down.
    pub open spec fn wf(self) -> bool {
        &&& self.grid.wf()
        &&& covered_spec(self.scanbox, self.grid.spec_pitch())
        &&& self.stroke.wf()
        &&& (!self.cursor_commit ==> self.stroke.is_active())
        &&& (self.cursor_down ==> self.stroke.is_active())
    }

    /// A fresh engine: running, a 3 x 3 grid, the scanbox at the world
    /// origin, the pen at its start hue, no gesture in progress.
    pub fn new() -> (e: EngineState)
        ensures
            e.wf(),
            e.is_running,
            e.brush == BrushMode::Squareish,
            e.color == (125u8, 0u8, 175u8),
            e.cursor == V2(0, 0),
            !e.cursor_down,
            e.cursor_commit,
            e.scanbox == V2(0, 0),
            e.grid.spec_pitch() == INITIAL_PITCH,
            e.stroke.samples_seq().len() == 0,
            e.controller.pressed_map() == Map::<u32, bool>::empty(),
            e.controller.held_map() == Map::<u32, bool>::empty(),
            forall|i: int|
                0 <= i < e.grid.tile_count() ==> (#[trigger] e.grid.tiles_seq()[i]).is_uninitialized(),
    {
        EngineState {
            is_running: true,
            controller: Input::new(),
            brush: BrushMode::Squareish,
            color: (125, 0, 175),
            cursor: V2(0, 0),
            cursor_down: false,
            cursor_commit: true,
            scanbox: V2(0, 0),
            grid: RegionGrid::new(),
            stroke: StrokeBuffer::new(),
        }
    }

    /// What folding one platform event into the state does: close requests
    /// stop the loop, key events feed the keyboard bookkeeping, pointer
    /// moves track the cursor, and a press opens a gesture that the
    /// release ends. Everything not named is untouched.
    pub open spec fn event_effect(pre: EngineState, post: EngineState, e: InputEvent) -> bool {
        match e {
            InputEvent::Closed => post == EngineState { is_running: false, ..pre },
            InputEvent::KeyDown(k) => {
                &&& post == EngineState { controller: post.controller, ..pre }
                &&& post.controller.pressed_map() == pre.controller.pressed_map().insert(k, true)
                &&& post.controller.held_map() == pre.controller.held_map().insert(k, true)
                &&& post.controller.released_map() == pre.controller.released_map()
            },
            InputEvent::KeyUp(k) => {
                &&& post == EngineState { controller: post.controller, ..pre }
                &&& post.controller.released_map() == pre.controller.released_map().insert(k, true)
                &&& post.controller.held_map() == pre.controller.held_map().insert(k, false)
                &&& post.controller.pressed_map() == pre.controller.pressed_map()
            },
            InputEvent::PointerMoved(x, y) => post == EngineState { cursor: V2(x, y), ..pre },
            InputEvent::PointerPressed => {
                &&& post == EngineState {
                    cursor_down: true,
                    cursor_commit: false,
                    stroke: post.stroke,
                    ..pre
                }
                &&& post.stroke.is_active()
                &&& post.stroke.samples_seq() == pre.stroke.samples_seq()
                &&& post.stroke.wf() == pre.stroke.wf()
            },
            InputEvent::PointerReleased => post == EngineState { cursor_down: false, ..pre },
        }
    }

    /// Fold one platform event into the state.
    pub fn handle_event(&mut self, e: InputEvent)
        ensures
            old(self).wf() ==> final(self).wf(),
            EngineState::event_effect(*old(self), *final(self), e),
    {
        match e {
            InputEvent::Closed => {
                self.is_running = false;
            },
            InputEvent::KeyDown(k) => {
                self.controller.key_down_event(k);
            },
            InputEvent::KeyUp(k) => {
                self.controller.key_up_event(k);
            },
            InputEvent::PointerMoved(x, y) => {
                self.cursor = V2(x, y);
            },
            InputEvent::PointerPressed => {
                self.cursor_down = true;
                self.cursor_commit = false;
                self.stroke.begin_stroke();
            },
            InputEvent::PointerReleased => {
                self.cursor_down = false;
            },
        }
    }

    /// Cut a new frame: reset the edge-triggered pressed and released key
    /// sets; held keys and everything else carry over.
    pub fn begin_frame(&mut self)
        ensures
            *final(self) == (EngineState { controller: final(self).controller, ..*old(self) }),
            final(self).controller.pressed_map() == Map::<u32, bool>::empty(),
            final(self).controller.released_map() == Map::<u32, bool>::empty(),
            final(self).controller.held_map() == old(self).controller.held_map(),
            old(self).wf() ==> final(self).wf(),
    {
        self.controller.begin_new_frame();
    }

    /// Apply this frame's keyboard state: escape stops the loop, a held
    /// hue key cycles one pen channel, and a held arrow key pans the
    /// scanbox one step.
    pub fn apply_keys(&mut self)
        requires
            covered_spec(old(self).scanbox, old(self).grid.spec_pitch()),
            old(self).grid.wf(),
        ensures
            *final(self) == (EngineState {
                is_running: final(self).is_running,
                color: final(self).color,
                scanbox: final(self).scanbox,
                ..*old(self)
            }),
            final(self).is_running == (old(self).is_running && !key_flag(
                old(self).controller.pressed_map(),
                KEY_ESCAPE,
            )),
            final(self).color == cycled_color(old(self).color, old(self).controller.held_map()),
            (final(self).scanbox.0 as int, final(self).scanbox.1 as int) == pan_from_keys(
                old(self).scanbox,
                old(self).controller.held_map(),
            ),
    {
        proof {
            self.grid.lemma_wf_bounds();
        }
        if self.controller.was_key_pressed(KEY_ESCAPE) {
            self.is_running = false;
        }
        if self.controller.is_key_held(KEY_HUE_R) {
            self.color.0 = if self.color.0 == 255 {
                0
            } else {
                self.color.0 + 1
            };
        } else if self.controller.is_key_held(KEY_HUE_G) {
            self.color.1 = if self.color.1 == 255 {
                0
            } else {
                self.color.1 + 1
            };
        } else if self.controller.is_key_held(KEY_HUE_B) {
            self.color.2 = if self.color.2 == 255 {
                0
            } else {
                self.color.2 + 1
            };
        }
        if self.controller.is_key_held(KEY_UP) {
            self.scanbox = pan(self.scanbox, PanDirection::Up, PAN_STEP);
        } else if self.controller.is_key_held(KEY_DOWN) {
            self.scanbox = pan(self.scanbox, PanDirection::Down, PAN_STEP);
        } else if self.controller.is_key_held(KEY_LEFT) {
            self.scanbox = pan(self.scanbox, PanDirection::Left, PAN_STEP);
        } else if self.controller.is_key_held(KEY_RIGHT) {
            self.scanbox = pan(self.scanbox, PanDirection::Right, PAN_STEP);
        }
    }

    /// Reshape the canvas around the viewport: grow the grid until the
    /// viewport rectangle is covered, then run the paging pass so a tile is
    /// resident exactly when visible. Returns the index shift that
    /// leftward/downward growth applied to every existing tile.
    pub fn update_canvas(&mut self) -> (shift: usize)
        requires
            old(self).grid.wf(),
            old(self).grid.spec_pitch() <= COVER_PITCH_LIMIT,
            -WORLD_LIMIT <= old(self).scanbox.0 <= WORLD_LIMIT,
            -WORLD_LIMIT <= old(self).scanbox.1 <= WORLD_LIMIT,
        ensures
            *final(self) == (EngineState {
                scanbox: final(self).scanbox,
                grid: final(self).grid,
                ..*old(self)
            }),
            final(self).grid.wf(),
            covered_spec(final(self).scanbox, final(self).grid.spec_pitch()),
            old(self).grid.spec_pitch() + shift <= final(self).grid.spec_pitch(),
            final(self).grid.spec_pitch() <= old(self).grid.spec_pitch() + neg_deficit(
                old(self).scanbox.0 as int,
                TILE_W as int,
            ) + neg_deficit(old(self).scanbox.1 as int, TILE_H as int) + out_deficit(
                old(self).scanbox.0 as int,
                TILE_W as int,
                old(self).grid.spec_pitch(),
            ) + out_deficit(
                old(self).scanbox.1 as int,
                TILE_H as int,
                old(self).grid.spec_pitch(),
            ),
            final(self).scanbox.0 == old(self).scanbox.0 + shift * TILE_W,
            final(self).scanbox.1 == old(self).scanbox.1 + shift * TILE_H,
            forall|r: int, c: int|
                0 <= r < final(self).grid.spec_pitch() && 0 <= c < final(self).grid.spec_pitch()
                    ==> (#[trigger] final(self).grid.cell_spec(r, c)).is_hot()
                    == tile_visible_spec(final(self).scanbox, r, c),
            forall|r: int, c: int|
                shift <= r < old(self).grid.spec_pitch() + shift && shift <= c < old(
                self).grid.spec_pitch() + shift ==> (#[trigger] final(self).grid.cell_spec(
                    r,
                    c,
                )).contents() == old(self).grid.cell_spec(r - shift, c - shift).contents() && final(self).grid.cell_spec(r, c).paths_seq() == old(self).grid.cell_spec(
                    r - shift,
                    c - shift,
                ).paths_seq(),
            forall|r: int, c: int|
                0 <= r < final(self).grid.spec_pitch() && 0 <= c < final(self).grid.spec_pitch()
                    && !(shift <= r < old(self).grid.spec_pitch() + shift && shift <= c < old(self).grid.spec_pitch() + shift) ==> (#[trigger] final(self).grid.cell_spec(
                    r,
                    c,
                )).contents() == fresh_tile_bytes() && final(self).grid.cell_spec(
                    r,
                    c,
                ).paths_seq().len() == 0,
    {
        let shift = self.grid.ensure_covers(&mut self.scanbox);
        let ghost mid = *self;
        proof {
            self.grid.lemma_wf_bounds();
        }
        self.grid.page(&self.scanbox);
        proof {
            let p1 = self.grid.spec_pitch();
            let sh = shift as int;
            let p0 = old(self).grid.spec_pitch();
            assert forall|r: int, c: int|
                sh <= r < p0 + sh && sh <= c < p0 + sh implies (#[trigger] self.grid.cell_spec(
                r,
                c,
            )).contents() == old(self).grid.cell_spec(r - sh, c - sh).contents()
                && self.grid.cell_spec(r, c).paths_seq() == old(self).grid.cell_spec(
                r - sh,
                c - sh,
            ).paths_seq() by {
                assert(mid.grid.cell_spec(r, c) == old(self).grid.cell_spec(r - sh, c - sh));
            }
            assert forall|r: int, c: int|
                0 <= r < p1 && 0 <= c < p1 && !(sh <= r < p0 + sh && sh <= c < p0 + sh) implies (
            #[trigger] self.grid.cell_spec(r, c)).contents() == fresh_tile_bytes()
                && self.grid.cell_spec(r, c).paths_seq().len() == 0 by {
                mid.grid.lemma_cells_wf(r, c);
                mid.grid.cell_spec(r, c).lemma_states();
            }
        }
        shift
    }

    /// Advance the stroke gesture: while the pointer is down and inside
    /// the window, record the cursor; on the first frame after a release,
    /// commit the gesture into an immutable corrected path owned by the
    /// tile under its first sample, and arm the buffer for the next
    /// gesture. A gesture whose first sample falls outside the allocated
    /// grid, or that never collected a sample, is dropped rather than
    /// committed.
    pub fn update_strokes(&mut self)
        requires
            old(self).grid.wf(),
            old(self).stroke.wf(),
            covered_spec(old(self).scanbox, old(self).grid.spec_pitch()),
            old(self).grid.spec_pitch() * (TILE_W as int) <= WORLD_LIMIT + TILE_W,
            old(self).grid.spec_pitch() * (TILE_H as int) <= WORLD_LIMIT + TILE_H,
            !old(self).cursor_commit ==> old(self).stroke.is_active(),
            old(self).cursor_down ==> old(self).stroke.is_active(),
        ensures
            *final(self) == (EngineState {
                cursor_commit: final(self).cursor_commit,
                stroke: final(self).stroke,
                grid: final(self).grid,
                ..*old(self)
            }),
            final(self).grid.wf(),
            final(self).grid.spec_pitch() == old(self).grid.spec_pitch(),
            final(self).stroke.wf(),
            final(self).cursor_commit == (old(self).cursor_commit || !old(self).cursor_down),
            !final(self).cursor_commit ==> final(self).stroke.is_active(),
            final(self).cursor_down ==> final(self).stroke.is_active(),
            old(self).cursor_down && in_window(old(self).cursor) ==> final(self).stroke.samples_seq() == old(self).stroke.samples_seq().push(old(self).cursor)
                && final(self).grid == old(self).grid,
            old(self).cursor_down && !in_window(old(self).cursor) ==> final(self).stroke == old(self).stroke && final(self).grid == old(self).grid,
            !old(self).cursor_down && old(self).cursor_commit ==> final(self).stroke == old(self).stroke && final(self).grid == old(self).grid,
            !old(self).cursor_down && !old(self).cursor_commit ==> final(self).stroke.samples_seq().len() == 0,
            ({
                let samples = old(self).stroke.samples_seq();
                let crow = (samples[0].1 + old(self).scanbox.1) / (TILE_H as int);
                let ccol = (samples[0].0 + old(self).scanbox.0) / (TILE_W as int);
                !old(self).cursor_down && !old(self).cursor_commit && !(samples.len() > 0 && 0
                    <= crow < old(self).grid.spec_pitch() && 0 <= ccol < old(
                self).grid.spec_pitch()) ==> final(self).grid == old(self).grid
            }),
            ({
                let samples = old(self).stroke.samples_seq();
                let crow = (samples[0].1 + old(self).scanbox.1) / (TILE_H as int);
                let ccol = (samples[0].0 + old(self).scanbox.0) / (TILE_W as int);
                !old(self).cursor_down && !old(self).cursor_commit && samples.len() > 0 && 0 <= crow
                    < old(self).grid.spec_pitch() && 0 <= ccol < old(self).grid.spec_pitch() ==> {
                    &&& final(self).grid.cell_spec(crow, ccol).paths_seq().len() == old(self).grid.cell_spec(crow, ccol).paths_seq().len() + 1
                    &&& final(self).grid.cell_spec(crow, ccol).paths_seq().last().samples_seq()
                        == corrected_seq(samples, old(self).scanbox)
                    &&& final(self).grid.cell_spec(crow, ccol).paths_seq().last().spec_needs_render()
                    &&& final(self).grid.cell_spec(crow, ccol).contents() == old(self).grid.cell_spec(crow, ccol).contents()
                    &&& final(self).grid.cell_spec(crow, ccol).is_hot() == old(self).grid.cell_spec(crow, ccol).is_hot()
                    &&& forall|r: int, c: int|
                        0 <= r < old(self).grid.spec_pitch() && 0 <= c < old(
                        self).grid.spec_pitch() && !(r == crow && c == ccol)
                            ==> #[trigger] final(self).grid.cell_spec(r, c) == old(
                        self).grid.cell_spec(r, c)
                }
            }),
    {
        if self.cursor_down {
            let cur = self.cursor;
            if cur.0 >= 0 && cur.0 < TILE_W && cur.1 >= 0 && cur.1 < TILE_H {
                self.stroke.add_sample(cur);
            }
        } else if !self.cursor_commit {
            if self.stroke.sample_count() > 0 {
                let (path, row, col) = self.stroke.commit_stroke(self.scanbox);
                if row < self.grid.pitch() && col < self.grid.pitch() {
                    self.grid.add_path_at(row, col, path);
                }
            }
            self.cursor_commit = true;
        }
    }

    /// One frame's decisions, in the loop's order: keyboard effects, grid
    /// growth around the panned viewport, the paging pass, then stroke
    /// capture or commit. Returns the tile index shift this frame's
    /// leftward growth applied.
    pub fn step(&mut self) -> (shift: usize)
        requires
            old(self).wf(),
            old(self).grid.spec_pitch() <= ENGINE_PITCH_LIMIT,
        ensures
            final(self).wf(),
            final(self).grid.spec_pitch() <= old(self).grid.spec_pitch() + 4,
            final(self).is_running == (old(self).is_running && !key_flag(
                old(self).controller.pressed_map(),
                KEY_ESCAPE,
            )),
            final(self).color == cycled_color(old(self).color, old(self).controller.held_map()),
            final(self).brush == old(self).brush,
            final(self).cursor == old(self).cursor,
            final(self).cursor_down == old(self).cursor_down,
            final(self).controller == old(self).controller,
            final(self).cursor_commit == (old(self).cursor_commit || !old(self).cursor_down),
            final(self).scanbox.0 == pan_from_keys(
                old(self).scanbox,
                old(self).controller.held_map(),
            ).0 + shift * TILE_W,
            final(self).scanbox.1 == pan_from_keys(
                old(self).scanbox,
                old(self).controller.held_map(),
            ).1 + shift * TILE_H,
            covered_spec(final(self).scanbox, final(self).grid.spec_pitch()),
            forall|r: int, c: int|
                0 <= r < final(self).grid.spec_pitch() && 0 <= c < final(self).grid.spec_pitch()
                    ==> (#[trigger] final(self).grid.cell_spec(r, c)).is_hot()
                    == tile_visible_spec(final(self).scanbox, r, c),
            forall|r: int, c: int|
                shift <= r < old(self).grid.spec_pitch() + shift && shift <= c < old(
                self).grid.spec_pitch() + shift ==> (#[trigger] final(self).grid.cell_spec(
                    r,
                    c,
                )).contents() == old(self).grid.cell_spec(r - shift, c - shift).contents(),
    {
        proof {
            let p0 = self.grid.spec_pitch();
            assert(self.scanbox.0 <= p0 * TILE_W - TILE_W);
            assert(self.scanbox.1 <= p0 * TILE_H - TILE_H);
        }
        self.apply_keys();
        proof {
            let p0 = self.grid.spec_pitch();
            crate::grid::lemma_pan_step_deficits(self.scanbox.0 as int, TILE_W as int, p0);
            crate::grid::lemma_pan_step_deficits(self.scanbox.1 as int, TILE_H as int, p0);
        }
        let shift = self.update_canvas();
        let ghost mid = *self;
        self.update_strokes();
        proof {
            let p1 = self.grid.spec_pitch();
            assert forall|r: int, c: int|
                0 <= r < p1 && 0 <= c < p1 implies (#[trigger] self.grid.cell_spec(
                r,
                c,
            )).is_hot() == tile_visible_spec(self.scanbox, r, c) && self.grid.cell_spec(
                r,
                c,
            ).contents() == mid.grid.cell_spec(r, c).contents() by {
                let samples = mid.stroke.samples_seq();
                if !mid.cursor_down && !mid.cursor_commit && samples.len() > 0 {
                    let crow = (samples[0].1 + mid.scanbox.1) / (TILE_H as int);
                    let ccol = (samples[0].0 + mid.scanbox.0) / (TILE_W as int);
                    if 0 <= crow < mid.grid.spec_pitch() && 0 <= ccol < mid.grid.spec_pitch() {
                        if !(r == crow && c == ccol) {
                            assert(self.grid.cell_spec(r, c) == mid.grid.cell_spec(r, c));
                        }
                    } else {
                        assert(self.grid == mid.grid);
                    }
                } else {
                    assert(self.grid == mid.grid);
                }
            }
        }
        shift
    }
}

} // verus!
