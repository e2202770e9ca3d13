[package]
name = "rust_core"
version = "0.1.0"
edition = "2021"
publish = false

[dependencies]
pyo3 = "0.20"
serde = { version = "1", features = ["derive"] }
serde_json = "1"
