[package]
name = "jsoned"
version = "0.1.0"
edition = "2021"
publish = false

[dependencies]
regex = "=1.13.1"
indexmap = "=2.14.2"
serde_json = { version = "=1.0.154", features = ["preserve_order"] }
serde_yaml = "=0.9.34"
toml = "=0.8.23"
csv = "=1.4.0"
anyhow = "=1.0.104"
crossterm = "=0.28.1"
ratatui = "=0.29.0"
tui-textarea = "=0.7.0"
jaq-core = "3"
jaq-std = "3"
jaq-json = "2"
fake = { version = "=4.4.0", features = ["uuid"] }
chrono = "=0.4.45"
clap = { version = "=4.6.7", features = ["derive"] }
