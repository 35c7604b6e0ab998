[package]
name = "mandel"
version = "0.1.0"
edition = "2021"
publish = false

[dependencies]
bytemuck = { version = "1", features = ["derive"] }
futures-intrusive = "0.5"
image = { version = "0.24", default-features = false, features = ["png"] }
log = "0.4"
pollster = "0.3"
wgpu = "0.15"
