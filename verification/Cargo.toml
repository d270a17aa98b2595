[package]
name = "omniscient"
version = "0.1.0"
edition = "2021"
publish = false

[dependencies]
alloy = { version = "=0.9.2", default-features = false, features = ["std", "k256"] }
anyhow = "=1.0.104"
async-trait = "=0.1.92"
axum = { version = "=0.7.9", features = ["ws"] }
chrono = "=0.4.45"
crossbeam = "=0.8.5"
dotenvy = "=0.15.7"
futures = "=0.3.34"
hex = "=0.4.3"
reqwest = { version = "=0.12.28", default-features = false, features = ["json"] }
serde = { version = "=1.0.229", features = ["derive"] }
serde_json = "=1.0.154"
thiserror = "=1.0.69"
tokio = { version = "=1.54.1", features = ["rt-multi-thread", "macros", "time", "signal", "sync", "net"] }
tracing = "=0.1.44"
uuid = { version = "=1.29.0", features = ["v4"] }

[dev-dependencies]
k256 = { version = "=0.13.4", features = ["ecdsa"] }
