[package]
name = "tokenismo-core"
version = "0.1.0"
edition = "2021"
publish = false

[dependencies]
unicode-normalization = "0.1"
serde_json = "1"
serde = { version = "1", features = ["derive"] }
serde_yaml = "0.9"
rayon = "1"
indicatif = { version = "0.17", features = ["rayon"] }
flate2 = "1"
anyhow = "1"
clap = { version = "4", features = ["derive"] }
thiserror = "1"
pyo3 = "0.22"
