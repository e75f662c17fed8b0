[package]
name = "metaserve"
version = "0.1.0"
edition = "2021"
publish = false

[dependencies]
anyhow = "*"
clap = { version = "*", features = ["derive"] }
futures-util = "*"
indexmap = "*"
quinn = "*"
rustls = "*"
slab = "*"
thiserror = "*"
tokio = { version = "*", features = ["rt-multi-thread", "macros", "sync", "time"] }
tracing = "*"
tracing-appender = "*"
tracing-journald = "*"
tracing-subscriber = { version = "*", features = ["env-filter"] }
