[package]
name = "sky_baker"
version = "0.1.0"
edition = "2021"
publish = false

[dependencies]
bytemuck = { version = "1", features = ["extern_crate_alloc"] }
half = "2"
exr = "1"
wgpu = "27"
anyhow = "1"
clap = { version = "4", features = ["derive"] }
env_logger = "0.11"
log = "0.4"
pollster = "0.4"
