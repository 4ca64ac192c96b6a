[package]
name = "factory-tui"
version = "0.1.0"
edition = "2021"
publish = false

[dependencies]
ratatui = "0.29"
regex = "1"
serde = { version = "1", features = ["derive"] }
toml = "0.8"
