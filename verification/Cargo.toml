[package]
name = "engine"
version = "0.1.0"
edition = "2021"
publish = false

[dependencies]
rand = { version = "0.8", features = ["small_rng"] }
rayon = "1"
wasm-bindgen = "0.2"
js-sys = "0.3"
