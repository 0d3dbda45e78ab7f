[package]
name = "pubsub"
version = "0.1.0"
edition = "2021"
publish = false

[dependencies]
futures = "0.3"
libp2p = { version = "*", default-features = false }
serde = { version = "1", features = ["derive"] }
