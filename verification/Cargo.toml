[package]
name = "fiat_shamir"
version = "0.1.0"
edition = "2021"
publish = false

[dependencies]
bincode = { version = "2", features = ["serde"] }
p3-field = "0.3"
p3-keccak = "0.3"
p3-symmetric = "0.3"
serde = "1"

[dev-dependencies]
p3-baby-bear = "0.3"
p3-goldilocks = "0.3"
rand = { version = "0.9", features = ["small_rng"] }
