[package]
name = "tiered_commitment_tree"
version = "0.1.0"
edition = "2021"
publish = false

[dependencies]
anyhow = "1"
blake2b_simd = "1"
decaf377 = "*"
decaf377-fmd = "*"
poseidon377 = "*"
rand = "0.8"
serde = { version = "1", features = ["derive"] }
