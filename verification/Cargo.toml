[package]
name = "pick"
version = "0.1.0"
edition = "2021"
publish = false

[dependencies]
clap = { version = "4", features = ["derive"] }
csv = "1"
regex = "1"
serde_json = "1"
serde_yaml = "0.9"
thiserror = "2"
toml = "0.8"
