[package]
name = "ducer"
version = "0.1.0"
edition = "2021"
publish = false

[dependencies]
fst = "0.4"
pyo3 = "0.22"
