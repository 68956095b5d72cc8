//! Voxel files: what they hold, and the scene that is made of them.

pub mod file;
pub mod scene;
pub mod paths;
pub mod model;
pub mod loader;
pub mod geometry;
pub mod palette;
pub mod runtime;
