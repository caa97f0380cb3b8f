[package]
name = "merkle_vcs"
version = "0.1.0"
edition = "2021"
publish = false

[dependencies]
blake3 = "*"
serde = { version = "*", features = ["derive"] }

[dev-dependencies]
rand = { version = "0.8", features = ["small_rng"] }
