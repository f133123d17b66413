[package]
name = "ultrametric_matrix_tools"
version = "0.1.0"
edition = "2021"
publish = false

[dependencies]
nalgebra = "0.33"
rand = "0.8"
ndarray = "0.15"
numpy = "0.15"
pyo3 = { version = "0.15", features = ["extension-module"] }
ptree = "0.4"
petgraph = "0.6"
rayon = "1"
graph6 = "*"
