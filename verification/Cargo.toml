[package]
name = "memcached-rust"
version = "0.1.0"
edition = "2021"
publish = false

[dependencies]
anyhow = "1"
bytes = "1"
clap = { version = "4", features = ["derive"] }
dashmap = "6"
env_logger = "0.11"
log = "0.4"
murmur3 = "0.5"
tokio = { version = "1", features = ["rt-multi-thread", "macros", "net", "io-util"] }

[dev-dependencies]
crossbeam-utils = "0.8"
