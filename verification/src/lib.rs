//! Streaming, grid-partitioned terrain: a binary patch codec, a mesh index
//! builder, an image-block patch generator, and the streaming cache that
//! decides per tick which grid cells to request, keep, and evict.
//!
//! Heights and bounds are carried as raw 32-bit IEEE-754 bit patterns (`u32`):
//! the codec and the cache never perform arithmetic on them, so the library
//! stays exact while the rendering layer interprets them as `f32`.

pub mod cache;
pub mod codec;
pub mod generator;
pub mod mesh;
pub mod patch;

pub use patch::TerrainChunk;
pub use patch::Vec3Bits;
