[package]
name = "raft_core"
version = "0.1.0"
edition = "2021"
publish = false

[dependencies]
rand = { version = "0.8", features = ["small_rng"] }
serde = { version = "1", features = ["derive"] }
bincode = "1"
crc32fast = "1"
libc = "0.2"
