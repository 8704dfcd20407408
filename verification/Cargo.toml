[package]
name = "extract"
version = "0.1.0"
edition = "2021"
publish = false

[dependencies]
anyhow = "1"
lopdf = "*"
serde = { version = "1", features = ["derive"] }
serde_yaml = "*"
