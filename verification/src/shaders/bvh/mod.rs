//! Traversal of a compressed wide bounding volume hierarchy.

pub mod faststack;
pub mod cwbvh;
pub mod traversal;
pub mod run;
pub mod component;
