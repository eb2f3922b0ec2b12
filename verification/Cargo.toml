[package]
name = "substring_search"
version = "0.1.0"
edition = "2021"
publish = false

[dependencies]
ahash = "*"
bstr = "*"
byteorder = "*"
memchr = "*"
parking_lot = "*"
pyo3 = { version = "0.20", features = ["extension-module"] }
rayon = "*"
