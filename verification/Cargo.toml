[package]
name = "wfst"
version = "0.1.0"
edition = "2021"
publish = false

[dependencies]
linked-hash-map = "0.5"
rand = "0.8"
bincode = "1"
serde = { version = "1", features = ["derive"] }
serde_json = "1"
argparse = "0.2"
