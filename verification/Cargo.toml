[package]
name = "solana_turbine_simd"
version = "0.1.0"
edition = "2021"
publish = false

[dependencies]
lru = "0.7"
parking_lot = "0.12"

[dev-dependencies]
rand = "0.8"
rand_chacha = "0.3"
sha2 = "0.10"
reed-solomon-erasure = "6"
