[package]
name = "babel_player"
version = "0.1.0"
edition = "2021"
publish = false

[dependencies]
uuid = { version = "=1.27.0", features = ["v4", "serde"] }
tokio = { version = "=1.53.2", features = ["rt", "rt-multi-thread", "sync", "fs", "time"] }
serde = { version = "=1.0.229", features = ["derive"] }
serde_json = "=1.0.151"
serde_with = "=3.24.0"
chrono = "=0.4.45"
anyhow = "=1.0.104"
amll-lyric = "=0.3.0"
