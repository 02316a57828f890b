[package]
name = "film_simulation_lut_learning"
version = "0.1.0"
edition = "2021"
publish = false

[dependencies]
anyhow = "1"
csv = "1"
nalgebra = "*"
opencv = "*"
rand = "*"
serde = { version = "1", features = ["derive"] }
