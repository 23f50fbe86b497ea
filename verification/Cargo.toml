[package]
name = "pasta_merkle"
version = "0.1.0"
edition = "2021"
publish = false

[dependencies]
ark-pallas = "=0.4.0"
ark-crypto-primitives = { version = "=0.4.0", features = ["sponge"] }
ark-ff = "=0.4.2"
num-bigint = "*"
num = "*"
