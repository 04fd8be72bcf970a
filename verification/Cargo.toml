[package]
name = "annflat"
version = "0.1.1"
edition = "2021"
publish = false

[dependencies]
ndarray = { version = "0.16", features = ["rayon"] }
rayon = "1"
serde = { version = "1", features = ["derive"] }
serde_json = "1"
thiserror = "2"
pyo3 = { version = "0.23", features = ["abi3-py310"] }
numpy = "0.23"
