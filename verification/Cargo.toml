[package]
name = "license_audit"
version = "0.1.0"
edition = "2021"
publish = false

[dependencies]
anyhow = "*"
rayon = "*"
reqwest = "*"
serde = { version = "*", features = ["derive"] }
serde_json = "*"
spdx = "*"
tokio = { version = "*", features = ["rt"] }
zstd = "*"
