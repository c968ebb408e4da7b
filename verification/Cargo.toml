[package]
name = "gimme_the_3d"
version = "0.1.0"
edition = "2021"
publish = false

[dependencies]
gltf = "=1.4.1"
nalgebra = "=0.32.6"
three-d = { version = "=0.18.2", default-features = false, features = ["headless"] }
three-d-asset = { version = "=0.9.2", features = ["gltf", "png"] }
tokio = { version = "=1.54.1", features = ["macros", "rt-multi-thread"] }
