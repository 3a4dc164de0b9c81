//! Per-voxel light storage and its propagation.
pub mod frame;
pub mod light_map;
pub mod light_solver;
pub mod settling;
pub mod single_source;
pub mod withdrawal;

pub use light_map::LightMap;
pub use light_solver::LightSolver;
