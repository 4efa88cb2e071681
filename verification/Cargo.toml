[package]
name = "catchment"
version = "0.1.0"
edition = "2021"
publish = false

[dependencies]
nalgebra = "*"
rayon = "*"
csv = "*"
serde = { version = "*", features = ["derive"] }
image = "*"
