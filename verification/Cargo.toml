[package]
name = "rs_avl"
version = "0.1.0"
edition = "2021"
publish = false

[dependencies]
pyo3 = { version = "=0.30.1", features = ["experimental-inspect"] }
