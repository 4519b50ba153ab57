[package]
name = "chartmath"
version = "0.1.0"
edition = "2021"
publish = false

[dependencies]
serde = { version = "*", features = ["derive"] }
wasm-bindgen = "*"
serde-wasm-bindgen = "*"
