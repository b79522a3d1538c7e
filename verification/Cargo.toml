[package]
name = "async_rust"
version = "0.1.0"
edition = "2021"
publish = false

[dependencies]
bstr = "1"
pyo3 = { version = "0.13", features = ["extension-module"] }
