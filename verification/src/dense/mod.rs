//! Dense voxel models: one occupancy word and one material reference per block of voxels.

pub mod layout;
pub mod geometry;
pub mod material;
pub mod model;
