[package]
name = "koharu"
version = "0.1.0"
edition = "2021"
publish = false

[dependencies]
reqwest = { version = "=0.12.28", default-features = false }
serde = { version = "=1.0.229", features = ["derive"] }
serde_json = "=1.0.154"
anyhow = "=1.0.104"
image = { version = "=0.25.10", default-features = false, features = ["png"] }
clap = { version = "=4.6.7", features = ["derive"] }
candle-transformers = { version = "0.9", default-features = false }
