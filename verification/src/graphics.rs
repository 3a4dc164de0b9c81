//! Mesh construction.
pub mod culling;
pub mod voxel_renderer;

pub use voxel_renderer::VoxelRenderer;
