[package]
name = "flock_core"
version = "0.1.0"
edition = "2021"
publish = false

[dependencies]
blake3 = "1"
rayon = "1"
serde = { version = "1", features = ["derive"] }
sha2 = "0.11"
