[package]
name = "huex"
version = "0.3.0"
edition = "2021"
publish = false

[dependencies]
anyhow = "1"
clap = { version = "4", features = ["derive"] }
image = "*"
serde = { version = "1", features = ["derive"] }
serde_json = "1"
