[package]
name = "skyrim_alchemy"
version = "0.1.0"
edition = "2021"
publish = false

[dependencies]
anyhow = "=1.0.104"
bigdecimal = { version = "=0.4.11", features = ["serde"] }
clap = { version = "=4.6.7", features = ["derive"] }
colored = "=3.1.1"
serde = { version = "=1.0.229", features = ["derive"] }
serde_json = "=1.0.151"
