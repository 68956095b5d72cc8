//! What the shaders decide and compute on integers.

pub mod bvh;
pub mod dense;
pub mod walk;
pub mod ray;
pub mod mesh;
pub mod mesh_main;
pub mod pyramid;
pub mod mesh_render;
pub mod post;
