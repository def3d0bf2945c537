[package]
name = "yazi_favorites"
version = "0.1.0"
edition = "2021"
publish = false

[dependencies]
indexmap = "2"
serde_json = "1"
serde = { version = "1", features = ["derive"] }
anyhow = "1"
arc-swap = "1"
tokio = { version = "1", default-features = false, features = ["rt", "macros"] }
image = { version = "0.25", default-features = false, features = ["png", "jpeg"] }
ratatui = { version = "0.29", default-features = false }
