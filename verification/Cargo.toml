[package]
name = "silent-batched-threshold-encryption"
version = "0.1.0"
edition = "2021"
publish = false

[dependencies]
ark-ec = "0.5"
ark-ff = "0.5"
ark-poly = "0.5"
ark-serialize = "0.5"
ark-std = "0.5"
ark-bls12-381 = "0.5"
bincode = "1"
serde = { version = "1", features = ["derive"] }
sha2 = "0.10"
