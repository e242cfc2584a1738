[package]
name = "pep_292"
version = "0.1.0"
edition = "2021"
publish = false

[dependencies]
winnow = "0.5"
pyo3 = { version = "0.20", features = ["abi3-py37"] }
