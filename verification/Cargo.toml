[package]
name = "traffic_sim_core"
version = "0.1.0"
edition = "2021"
publish = false

[dependencies]
rand = "0.8"
pyo3 = { version = "0.20", features = ["abi3-py38", "extension-module"] }
