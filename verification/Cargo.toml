[package]
name = "clip_player"
version = "0.1.0"
edition = "2021"
publish = false

[dependencies]
lru = "*"
clap = { version = "*", features = ["derive"] }
rand = "*"
rodio = "*"
serde = { version = "*", features = ["derive"] }
serde_yaml = "*"
