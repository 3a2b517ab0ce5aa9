[package]
name = "lila_pwned"
version = "0.1.0"
edition = "2021"
publish = false

[dependencies]
hex = "0.4"
axum = "*"
clap = { version = "4", features = ["derive"] }
env_logger = "*"
indicatif = "*"
log = "0.4"
reqwest = "*"
rocksdb = "*"
serde = { version = "1", features = ["derive"] }
serde_with = "*"
thiserror = "*"
tikv-jemallocator = "*"
tokio = { version = "1", features = ["rt-multi-thread", "macros", "net", "time"] }
zstd = "*"
