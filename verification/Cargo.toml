[package]
name = "convex_cluster"
version = "0.1.0"
edition = "2021"
publish = false

[dependencies]
anyhow = "1"
async-nats = "0.38"
async-trait = "0.1"
futures = "0.3"
hex = "0.4"
parking_lot = "0.12"
prometheus = { version = "0.13", default-features = false }
rand = "0.9"
rand_chacha = "0.9"
serde = { version = "1", features = ["derive"] }
serde_json = "1"
tokio = { version = "1", features = ["rt", "sync", "time", "macros"] }
tracing = "0.1"
