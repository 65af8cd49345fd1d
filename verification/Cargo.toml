[package]
name = "carrot"
version = "0.1.0"
edition = "2021"
publish = false

[dependencies]
anyhow = "1"
bytemuck = { version = "1", features = ["derive"] }
env_logger = "0.11"
glam = "0.29"
log = "0.4"
tokio = { version = "1", features = ["rt-multi-thread", "macros", "time"] }
winit = "0.30"
