[package]
name = "sealenv"
version = "0.1.0"
edition = "2021"
publish = false

[dependencies]
anyhow = "1"
base64 = "0.22"
clap = { version = "4", features = ["derive"] }
colored = "2"
dirs = "5"
rand = "0.8"
ring = "0.17"
serde = { version = "1", features = ["derive"] }
toml = "0.8"
