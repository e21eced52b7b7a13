[package]
name = "event_cache"
version = "0.1.0"
edition = "2021"
publish = false

[dependencies]
parking_lot = "=0.12.5"
snarkvm = { version = "=0.16.19", default-features = false, features = ["anyhow", "circuit", "colored", "console", "ledger", "rand", "serde_json", "synthesizer", "ureq", "utilities"] }
time = "=0.3.55"
