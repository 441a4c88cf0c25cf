[package]
name = "rust_scanner"
version = "0.1.0"
edition = "2021"
publish = false

[dependencies]
dashmap = "6"
ignore = "0.4"
pyo3 = { version = "0.20", features = ["extension-module", "abi3-py38"] }
