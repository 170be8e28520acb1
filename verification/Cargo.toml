[package]
name = "river_network"
version = "0.1.0"
edition = "2021"
publish = false

[dependencies]
rand = "=0.8.5"
noise = "0.8"
log = "0.4"
env_logger = { version = "0.10", default-features = false }
image = { version = "0.24", default-features = false, features = ["png"] }
wgpu = { version = "0.19", default-features = false, features = ["wgsl"] }
pollster = "0.3"
bytemuck = { version = "1", features = ["derive"] }
