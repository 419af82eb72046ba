[package]
name = "libdonow"
version = "0.1.0"
edition = "2021"
publish = false

[dependencies]
chrono = "*"
fancy-regex = "*"
serde = { version = "*", features = ["derive"] }
serde_json = "*"
