[package]
name = "raytracer"
version = "0.1.0"
edition = "2021"
publish = false

[dependencies]
rand = "0.8"
crossbeam = "0.8"
image = { version = "0.24", default-features = false, features = ["jpeg", "png"] }
indicatif = "0.17"
lazy_static = "1"
nalgebra = "*"
opencv = "*"
