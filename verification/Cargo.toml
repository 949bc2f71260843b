[package]
name = "voxel_clipmap"
version = "0.1.0"
edition = "2021"
publish = false

[dependencies]
bevy = { version = "=0.18.1", default-features = false, features = ["bevy_mesh"] }
noise = "=0.9.0"
futures-lite = "=2.6.1"
serde = { version = "=1.0.229", features = ["derive"] }
raw-window-handle = "=0.6.2"
