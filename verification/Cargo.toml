[package]
name = "book"
version = "0.1.0"
edition = "2021"
publish = false

[dependencies]
crossterm = "=0.29.0"
epub = "=2.1.6"
ratatui = "=0.30.2"
serde = { version = "=1.0.229", features = ["derive"] }
toml = "=1.1.8"
unicode-width = "=0.2.3"
xml-rs = "=1.0.0"
