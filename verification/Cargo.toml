[package]
name = "gossip"
version = "0.1.0"
edition = "2021"
publish = false

[dependencies]
blake3 = { version = "1", default-features = false, features = ["std", "pure"] }
rand = "0.7"
serde = { version = "1", features = ["derive"] }
serde_cbor = "0.11"
log = "0.4"
