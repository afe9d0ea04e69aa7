[package]
name = "halo2_solidity_verifier"
version = "0.1.0"
edition = "2021"
publish = false

[dependencies]
ruint = "=1.21.1"
regex = "=1.13.1"
blake2b_simd = "=1.0.5"
halo2curves = { version = "0.7", default-features = false }
