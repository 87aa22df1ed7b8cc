[package]
name = "image_kmeans"
version = "0.1.0"
edition = "2021"
publish = false

[dependencies]
rand = "*"
serde = { version = "*", features = ["derive"] }
wasm-bindgen = "*"
web-sys = { version = "*", features = ["CanvasRenderingContext2d", "ImageData"] }
tsify = "*"
