[package]
name = "tiktoken"
version = "0.1.0"
edition = "2021"
publish = false

[dependencies]
bstr = "=1.13.1"
fancy-regex = "=0.17.0"
rustc-hash = "=2.1.3"
pyo3 = { version = "=0.27.2", features = ["abi3-py311", "extension-module"] }
