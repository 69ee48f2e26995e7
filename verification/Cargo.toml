[package]
name = "deepsort_rs"
version = "0.1.0"
edition = "2021"
publish = false

[dependencies]
nalgebra = "*"
numpy = "*"
ordered-float = "*"
pathfinding = "*"
pyo3 = "*"
