[package]
name = "within"
version = "0.1.0"
edition = "2021"
publish = false

[dependencies]
approx-chol = { version = "=0.3.1", features = ["serde"] }
ndarray = "=0.16.1"
numpy = "=0.24.0"
portable-atomic = { version = "=1.15.0", features = ["float"] }
postcard = { version = "=1.1.3", features = ["use-std"] }
pyo3 = { version = "=0.24.2", features = ["extension-module", "abi3-py39"] }
rayon = "=1.12.0"
serde = { version = "=1.0.229", features = ["derive", "rc"] }
thiserror = "=2.0.21"
thread_local = "=1.1.10"
