[package]
name = "bencode2"
version = "0.1.0"
edition = "2021"
publish = false

[dependencies]
bytes = "*"
itoa = "*"
smallvec = "*"
pyo3 = "0.21"
