[package]
name = "rollup_node"
version = "0.1.0"
edition = "2021"
publish = false

[dependencies]
actix-web = "=4.18.1"
base64 = "=0.22.1"
ethereum-types = "=0.14.1"
lazy_static = "=1.5.1"
parking_lot = "=0.12.5"
proc-macro2 = "=1.0.107"
quote = "=1.0.47"
serde = { version = "=1.0.229", features = ["derive"] }
serde_json = "=1.0.154"
syn = "=1.0.109"
tokio = { version = "=1.54.1", features = ["sync", "time"] }
tracing = "=0.1.44"
web3 = { version = "=0.19.0", default-features = false, features = ["signing"] }
