[package]
name = "smatrix"
version = "0.1.0"
edition = "2021"
publish = false

[dependencies]
numpy = "0.20"
pyo3 = { version = "0.20", features = ["extension-module"] }

[dev-dependencies]
regex = "1"
