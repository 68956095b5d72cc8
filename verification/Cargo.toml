[package]
name = "dust"
version = "0.1.0"
edition = "2021"
publish = false

[dependencies]
bytemuck = { version = "=1.25.2", features = ["derive"] }
dot_vox = "=5.2.0"
glam = "=0.30.10"
obvhs = "=0.3.3"
rayon = "1"
serde = { version = "1", features = ["derive"] }
thiserror = "2"
tracing = "0.1"
bevy = { version = "=0.18.1", default-features = false, features = ["bevy_asset", "bevy_camera_controller", "bevy_color", "bevy_log", "bevy_picking", "bevy_scene", "bevy_window", "free_camera", "std"] }
avian3d = { version = "=0.6.1", default-features = false, features = ["3d", "f32", "parry-f32"] }
