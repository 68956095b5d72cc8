//! What is prepared on the processor for a frame.

pub mod bounds;
pub mod frame;
pub mod resources;
pub mod scene;
