[package]
name = "boilmaster"
version = "0.1.0"
edition = "2021"
publish = false

[dependencies]
anyhow = "=1.0.104"
axum = "=0.6.20"
axum-macros = "=0.3.8"
either = "=1.19.0"
figment = "=0.10.19"
fs4 = "=0.6.6"
futures = "=0.3.34"
ironworks = { version = "=0.4.1", features = ["excel", "ffxiv"] }
itertools = "=0.11.0"
nonempty = "=0.8.1"
serde = { version = "=1.0.229", features = ["derive"] }
serde_json = "=1.0.154"
tokio = { version = "=1.54.1", features = ["full"] }
tokio-util = "=0.7.20"
tracing = "=0.1.44"
