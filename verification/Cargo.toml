[package]
name = "nemesis"
version = "0.1.0"
edition = "2021"
publish = false

[dependencies]
petgraph = "*"
parking_lot = "*"
serde = { version = "*", features = ["derive"] }
serde_yaml = "*"
tokio = { version = "*", features = ["rt-multi-thread", "macros", "time", "sync"] }
async-trait = "*"
anyhow = "*"
uuid = { version = "*", features = ["v4"] }
tracing = "*"
