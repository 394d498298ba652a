[package]
name = "gravity_reth"
version = "0.1.0"
edition = "2021"
publish = false

[dependencies]
alloy-primitives = "=1.7.3"
alloy-trie = "=0.8.1"
alloy-consensus = { version = "=1.8.3", features = ["k256"] }
alloy-eips = "=1.8.3"
alloy-sol-types = "=1.7.3"
alloy-rpc-types = "=1.8.3"
op-alloy-consensus = "0.23"
revm-primitives = "=43.0.0"
anyhow = "1"
async-trait = "0.1"
tokio = { version = "1", features = ["sync", "rt", "macros"] }
parking_lot = "0.12"
rayon = "1"
serde = { version = "1", features = ["derive"] }
serde_json = "1"
thiserror = "2"
tracing = "0.1"
