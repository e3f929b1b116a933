[package]
name = "redis_replay"
version = "0.1.0"
edition = "2021"
publish = false

[dependencies]
shellwords = "*"
redis = { version = "*", features = ["tokio-comp", "connection-manager"] }
tokio = { version = "*", features = ["rt-multi-thread", "macros", "fs", "io-util", "time"] }
clap = "*"
indicatif = "*"
anyhow = "*"
tracing = "*"
tracing-log = "*"
tracing-subscriber = { version = "*", features = ["env-filter"] }
