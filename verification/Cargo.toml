[package]
name = "ross_link"
version = "0.1.0"
edition = "2021"
publish = false

[dependencies]
anyhow = "1"
pyo3 = { version = "0.25", features = ["abi3-py39"] }
