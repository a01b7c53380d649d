[package]
name = "rtk"
version = "0.1.0"
edition = "2021"
publish = false

[dependencies]
anyhow = "1"
colored = "2"
dirs = "5"
regex = "1"
serde = { version = "1", features = ["derive"] }
serde_json = "1"
