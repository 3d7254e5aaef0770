[package]
name = "vkrender"
version = "0.1.0"
edition = "2021"
publish = false

[dependencies]
vulkano = "0.35"
winit = "0.30"
nalgebra = "0.33"
gltf = "1.4"
image = { version = "0.25", default-features = false, features = ["png", "jpeg"] }
