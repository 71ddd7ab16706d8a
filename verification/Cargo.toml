[package]
name = "raytracer"
version = "0.1.0"
edition = "2021"
publish = false

[dependencies]
fastrand = "=2.5.0"
glam = "=0.34.1"
gltf = { version = "=1.4.1", features = ["KHR_materials_transmission"] }
png = "=0.18.1"
rayon = "=1.12.0"
