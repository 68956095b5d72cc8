//! A hierarchical index of voxels.

pub mod tree;
pub mod encoding;
pub mod storage;
