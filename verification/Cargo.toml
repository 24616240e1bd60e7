[package]
name = "read_layers"
version = "0.1.0"
edition = "2021"
publish = false

[dependencies]
csv = "1"
glob = "0.3"
indicatif = "*"
ndarray = { version = "*", features = ["rayon"] }
ndarray-csv = "*"
numpy = "*"
pyo3 = "*"
rayon = "1"
