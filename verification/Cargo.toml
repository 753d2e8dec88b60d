[package]
name = "meta_raft_store"
version = "0.1.0"
edition = "2021"
publish = false

[dependencies]
futures = "=0.3.34"
openraft = "=0.6.9"
serde = { version = "=1.0.229", features = ["derive"] }
serde_json = "=1.0.154"
sled = "=0.34.7"
