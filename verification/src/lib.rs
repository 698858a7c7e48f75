//! Core of an infinite-canvas paint engine: a growable square grid of
//! fixed-size tiles paged in and out of residency around a panning viewport,
//! run-length-encoded storage for off-screen tiles, and stroke capture with
//! commit-time coordinate correction.
//!
//! Rendering, windowing and input polling are left to a thin shell around
//! this crate; everything here works on plain values.
use vstd::prelude::*;

pub mod codec;
pub mod engine;
pub mod graphics;
pub mod grid;
pub mod input;
pub mod stroke;
pub mod tga;
pub mod tile;
pub mod units;
pub mod viewport;

verus! {

/// Width in world units (and pixels) of one canvas tile, equal to the
/// viewport width.
pub const TILE_W: i64 = 1280;

/// Height in world units (and pixels) of one canvas tile, equal to the
/// viewport height.
pub const TILE_H: i64 = 720;

/// Bound on world coordinates the engine supports: a few thousand tiles in
/// each direction, far beyond any canvas a session could paint, and small
/// enough that every coordinate transform and grid index stays inside the
/// machine's integer ranges.
pub const WORLD_LIMIT: i64 = 4194304;

} // verus!
