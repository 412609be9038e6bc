[package]
name = "lista_circular"
version = "0.1.0"
edition = "2021"
publish = false

[dependencies]
pyo3 = { version = "=0.29.3", features = ["py-clone"] }
