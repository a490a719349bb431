[package]
name = "ip_marketplace"
version = "0.1.0"
edition = "2021"
publish = false

[dependencies]
soroban-sdk = { version = "=28.0.0", features = ["alloc"] }
soroban-poseidon = "=28.0.0"

[dev-dependencies]
soroban-sdk = { version = "=28.0.0", features = ["alloc", "testutils"] }
