[package]
name = "dqsim"
version = "0.1.0"
edition = "2021"
publish = false

[dependencies]
nalgebra = "0.33"
num-complex = "0.4"
numpy = "0.22"
pprof = { version = "0.14", features = ["flamegraph"] }
pyo3 = { version = "0.22", features = ["abi3-py39", "extension-module"] }
rand = "0.8"
rand_chacha = "0.3"
rayon = "1"
serde = { version = "1", features = ["derive"] }
serde_json = "1"
