[package]
name = "xlyph"
version = "0.1.0"
edition = "2021"
publish = false

[dependencies]
bracket-random = "=0.8.7"
bracket-color = "=0.8.7"
clap = { version = "=4.6.7", features = ["derive"] }
serde = { version = "=1.0.229", features = ["derive"] }
serde_json = "=1.0.154"
crossterm = "=0.26.1"
log = "=0.4.35"
