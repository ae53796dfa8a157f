[package]
name = "binary_proofs"
version = "0.1.0"
edition = "2021"
publish = false

[dependencies]
thiserror = "2"

[dev-dependencies]
rand = "0.9"
sha3 = "0.10"
