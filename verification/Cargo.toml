[package]
name = "bda"
version = "0.1.0"
edition = "2021"
publish = false

[dependencies]
ppom = "=0.7.0"
serde = { version = "=1.0.229", features = ["derive"] }
serde_json = "=1.0.154"
bincode = "=1.3.3"
clap = { version = "=3.2.25", features = ["derive"] }
url = "=2.5.8"

[dev-dependencies]
serde_yaml = "0.9"
