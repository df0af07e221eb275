//! Runtime core of a tile-based, chunked 2D world.
//!
//! The world is partitioned into fixed-size square chunks holding terrain
//! tiles and mobile objects.  Registries create and reconstruct content by a
//! string type tag, a per-frame update loop activates content near the
//! viewport, migrates objects between chunks, and resolves pairwise
//! collisions.  Geometry is carried in integer world units so that every rule
//! of the core can be stated and proved exactly.

use vstd::prelude::*;

pub mod biome;
pub mod chunk;
pub mod codec;
pub mod draw;
pub mod geom;
pub mod laws;
pub mod logger;
pub mod object;
pub mod text;
pub mod tile;
pub mod ui;
pub mod world;

verus! {

/// The error kinds of the core.
///
/// `UnknownTypeTag` reports a type tag with no registered prototype,
/// `MalformedRecord` a persisted record that does not parse, and `IoFailure`
/// a failed read or write of the surrounding storage layer.
#[derive(Clone, Copy, Debug, PartialEq, Eq, Structural)]
pub enum WorldError {
    UnknownTypeTag,
    MalformedRecord,
    IoFailure,
}

/// Edge length of a single tile, in world units.
pub const TILE_SIZE: i64 = 16;

/// Number of tiles along one edge of a chunk.
pub const CHUNK_SIZE: usize = 16;

/// Edge length of a chunk, in world units.
pub const CHUNK_PIXELS: i64 = TILE_SIZE * 16;

/// Margin around the viewport within which objects stay active.
pub const OBJECT_ACTIVATION_MARGIN: i64 = 100;

/// Radius, in chunks, of the window of chunks kept visible around the camera.
pub const RENDER_DISTANCE: i64 = 2;

/// Largest magnitude a position coordinate may take.  Keeping positions
/// within this bound keeps every coordinate computation of the core inside
/// `i64`/`i128` range.
pub const POS_LIMIT: i64 = 0x1000_0000_0000_0000;

/// Largest magnitude a velocity component may take.
pub const VEL_LIMIT: i64 = 0x8000_0000;

/// Largest extent a size component may take (sizes are never negative).
pub const SIZE_LIMIT: i64 = 0x8000_0000;

/// Largest magnitude of a chunk coordinate; `CHUNK_COORD_LIMIT * CHUNK_PIXELS`
/// stays within `POS_LIMIT`.
pub const CHUNK_COORD_LIMIT: i64 = 0x10_0000_0000_0000;

} // verus!
