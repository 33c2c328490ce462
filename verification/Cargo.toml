[package]
name = "consensus_core"
version = "0.1.0"
edition = "2021"
publish = false

[dependencies]
rand = "0.8.5"
blake2 = "0.10"
parking_lot = "0.12"
tracing = "0.1"
async-graphql = { version = "7.0", default-features = false }
