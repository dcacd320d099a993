//! Wave function collapse over a three-dimensional chunk of tiles.
//!
//! A catalogue of tile prototypes is compiled into tile variants and an
//! adjacency table; the chunk builder then fills a grid of cells with one
//! tile variant each so that every pair of neighbours is allowed by that table.
pub mod dir;
pub mod util;
pub mod prototype;
pub mod tile;
pub mod sampling;
pub mod chunk;
pub mod wave;

use vstd::prelude::*;

verus! {

/// Horizontal extent of a chunk, in cells, along X and along Z.
pub const CHUNK_SIZE: usize = 32;

/// Cells in one horizontal layer of a chunk.
pub const CHUNK_AREA: usize = CHUNK_SIZE * CHUNK_SIZE;

/// Vertical extent of a chunk, in layers.
pub const CHUNK_HIGHT: usize = 8;

/// Cells in a chunk.
pub const CHUNK_VOLUME: usize = CHUNK_AREA * CHUNK_HIGHT;

} // verus!
