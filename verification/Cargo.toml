[package]
name = "kzg"
version = "0.1.0"
edition = "2021"
publish = false

[dependencies]
bls12_381 = "0.8"
rand = { version = "0.8", features = ["small_rng"] }
