[package]
name = "json_diff"
version = "0.1.0"
edition = "2021"
publish = false

[dependencies]
regex = "*"
serde_json = "*"
clap = { version = "*", features = ["derive"] }
colored = "*"
anyhow = "*"
