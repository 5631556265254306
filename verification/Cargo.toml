[package]
name = "schist"
version = "0.1.0"
edition = "2021"
publish = false

[dependencies]
byteorder = "1"
miniz_oxide = "0.8"
rustc-hash = "2"
rayon = "1"
log = "0.4"
thiserror = "2"
serde = { version = "1", features = ["derive"] }
serde_json = "1"
pollster = "0.4"
wgpu = { version = "27", default-features = false, features = ["wgsl", "vulkan", "std"] }
