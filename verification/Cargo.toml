[package]
name = "tsqc"
version = "0.1.0"
edition = "2021"
publish = false

[dependencies]
bitvec = "1"
rand = "0.8"
rayon = "1"
pyo3 = "0.22"
