[package]
name = "assembly_engine"
version = "0.1.0"
edition = "2021"
publish = false

[dependencies]
glam = { version = "*", features = ["serde"] }
ordered-float = "*"
serde = { version = "*", features = ["derive"] }
serde_json = "*"
pyo3 = "*"
