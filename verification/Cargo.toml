[package]
name = "fex"
version = "0.1.0"
edition = "2021"
publish = false

[dependencies]
compact_str = "*"
nucleo = "*"
dashmap = "*"
anyhow = "*"
async-channel = "*"
axum = "*"
dirs = "*"
libc = "*"
notify = "*"
num_cpus = "*"
rusqlite = "*"
serde = { version = "*", features = ["derive"] }
serde_json = "*"
tokio = { version = "*", features = ["full"] }
tokio-util = "*"
