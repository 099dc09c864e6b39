[package]
name = "sagelib"
version = "0.1.0"
edition = "2021"
publish = false

[dependencies]
glob = "0.3"
napi = "2"
napi-derive = "2"
pyo3 = "0.22"
