[package]
name = "rsmtxmkt"
version = "0.1.0"
edition = "2021"
publish = false

[dependencies]
futures = "*"
num_cpus = "*"
sprs = "*"
tokio = { version = "*", features = ["fs", "io-util", "rt-multi-thread", "macros"] }
pyo3 = "*"
