[package]
name = "segment"
version = "0.1.0"
edition = "2021"
publish = false

[dependencies]
bitvec = "1"
log = "0.4"
parking_lot = "0.12"
reqwest = { version = "0.12", default-features = false, features = ["json"] }
serde = { version = "1", features = ["derive"] }
serde_json = "1"
