[package]
name = "top_kat"
version = "0.1.0"
edition = "2021"
publish = false

[dependencies]
pyo3 = "=0.20.3"
rand = "0.7"
streaming_algorithms = "=0.3.3"
