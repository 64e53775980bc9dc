[package]
name = "nvy"
version = "0.1.0"
edition = "2021"
publish = false

[dependencies]
anyhow = "*"
clap = { version = "*", features = ["derive"] }
glob = "*"
inline_colorization = "*"
serde = { version = "*", features = ["derive"] }
serde_yaml = "*"
