[package]
name = "latr"
version = "0.1.0"
edition = "2021"
publish = false

[dependencies]
rayon = "1"
wgpu = "25"
winit = "0.29"
pollster = "0.3"
bytemuck = { version = "1", features = ["derive"] }
serde = { version = "1", features = ["derive"] }
thiserror = "2"
toml = "0.8"
glam = "0.29"
tobj = "4"
