[package]
name = "rcof"
version = "0.1.0"
edition = "2021"
publish = false

[dependencies]
anyhow = "1"
axum = "0.8"
bytes = "1"
clap = { version = "4", features = ["derive"] }
cpal = "0.16.0"
crossbeam-queue = "0.3"
image = { version = "0.25", default-features = false, features = ["png"] }
libc = "0.2"
opus = "0.3.0"
reqwest = { version = "0.12", default-features = false, features = ["json"] }
serde = { version = "1", features = ["derive"] }
serde_json = "1"
tokio = { version = "1", features = ["full"] }
uuid = { version = "1", features = ["v4"] }
webrtc = "0.14"
