[package]
name = "cold_state"
version = "0.1.0"
edition = "2021"
publish = false

[dependencies]
alloy-primitives = { version = "=1.7.3", features = ["serde"] }
alloy-trie = "=0.9.9"
alloy-rlp = "=0.3.17"
async-trait = "=0.1.92"
bytes = "=1.12.1"
clap = { version = "=4.6.7", features = ["derive", "env"] }
clickhouse = "=0.15.3"
eyre = "=0.6.14"
serde = { version = "=1.0.229", features = ["derive"] }
serde_json = "=1.0.154"
tracing = "=0.1.44"
