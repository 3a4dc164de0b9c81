//! Voxels, chunks and the world grid that holds them.
pub mod chunk;
pub mod chunks;
pub mod voxel;

pub use chunk::Chunk;
pub use chunks::Chunks;
pub use voxel::Voxel;
