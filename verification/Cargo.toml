[package]
name = "share_bridge"
version = "0.1.0"
edition = "2021"
publish = false

[dependencies]
k256 = "0.13"
elliptic-curve = "0.13"
rand_core = { version = "0.6", features = ["getrandom"] }
serde = { version = "1", features = ["derive"] }
serde_json = "1"
