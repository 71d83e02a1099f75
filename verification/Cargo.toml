[package]
name = "staked_tokens_tracker"
version = "0.1.0"
edition = "2021"
publish = false

[dependencies]
prost = "0.11.9"
serde_json = "=1.0.154"
substreams = "0.5.22"
substreams-database-change = "1.3.1"
substreams-ethereum = "0.9.13"
