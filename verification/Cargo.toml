[package]
name = "p2p_handshake"
version = "0.1.0"
edition = "2021"
publish = false

[dependencies]
anyhow = "*"
clap = { version = "*", features = ["derive"] }
tokio = { version = "*", features = ["full"] }
