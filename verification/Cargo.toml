[package]
name = "replicon_dispatch"
version = "0.1.0"
edition = "2021"
publish = false

[dependencies]
bevy = { version = "0.14", default-features = false }
bincode = "1.3"
bytes = "1"
serde = { version = "1", features = ["derive"] }
