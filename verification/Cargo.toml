[package]
name = "rustmatch"
version = "0.1.0"
edition = "2021"
publish = false

[dependencies]
image = "0.24"
num_cpus = "1"
pyo3 = "0.20"
rayon = "1"
