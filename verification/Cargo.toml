[package]
name = "monitor"
version = "0.1.0"
edition = "2021"
publish = false

[dependencies]
itertools = "*"
jane-eyre = "*"
mktemp = "*"
osakit = "*"
serde = { version = "1", features = ["derive"] }
serde_json = "1"
toml = "*"
tracing = "0.1"
