[package]
name = "peter_math"
version = "0.1.0"
edition = "2021"
publish = false

[dependencies]
anyhow = "*"
eframe = { version = "*", default-features = false, features = ["wgpu", "default_fonts", "x11"] }
egui = "*"
fastrand = "*"
image = { version = "*", default-features = false, features = ["png"] }
serde = { version = "*", features = ["derive"] }
serde_json = "*"
