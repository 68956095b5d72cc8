//! Voxel storage, traversal and scene preparation for the Dust engine.

pub mod bits;
pub mod bytes;
pub mod dense;
pub mod math;
pub mod picking;
pub mod render;
pub mod shaders;
pub mod vdb;
pub mod vox;
