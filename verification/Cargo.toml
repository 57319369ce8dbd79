[package]
name = "cbpe-fast"
version = "0.1.0"
edition = "2021"
publish = false

[dependencies]
numpy = "0.27"
pyo3 = { version = "0.27", features = ["extension-module"] }
rayon = "1"
rustc-hash = "2"
