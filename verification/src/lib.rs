//! Voxel lighting propagation and chunk meshing.
//!
//! The world is a lattice of cubic chunks. Each voxel carries four light
//! channels of four bits each; a [`lighting::LightSolver`] spreads and
//! withdraws light of one channel by flood fill, and a
//! [`graphics::VoxelRenderer`] turns a chunk and its neighbourhood into an
//! interleaved vertex buffer that holds only the visible faces.
pub mod graphics;
pub mod lighting;
pub mod voxels;
