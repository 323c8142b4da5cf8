[package]
name = "pdf2"
version = "0.1.0"
edition = "2021"
publish = false

[dependencies]
chrono = { version = "=0.4.45", features = ["serde"] }
lopdf = "=0.46.0"
pyo3 = { version = "=0.29.3", features = ["abi3-py38", "chrono"] }
serde = { version = "=1.0.229", features = ["derive"] }
tempfile = "=3.27.0"

[dev-dependencies]
rand = "=0.10.3"
