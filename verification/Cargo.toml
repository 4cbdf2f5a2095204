[package]
name = "mmdb_writer"
version = "0.1.0"
edition = "2021"
publish = false

[dependencies]
byteorder = "1"
ipnetwork = "0.20"
pyo3 = "0.23"
