[package]
name = "pyferuca"
version = "0.1.0"
edition = "2021"
publish = false

[dependencies]
feruca = "*"
pyo3 = "0.23"
