[package]
name = "pool_actor"
version = "0.1.0"
edition = "2021"
publish = false

[dependencies]
alloy = { version = "=2.5.0", default-features = false, features = ["std", "providers", "rpc-types", "pubsub"] }
anyhow = "=1.0.104"
futures = "=0.3.34"
tokio = { version = "=1.54.1", features = ["rt-multi-thread", "macros", "sync"] }
