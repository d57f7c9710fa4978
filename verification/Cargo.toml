[package]
name = "iroh_bitswap"
version = "0.1.0"
edition = "2021"
publish = false

[dependencies]
ahash = "0.8"
anyhow = "1"
async-broadcast = "*"
async-channel = "*"
axum = "*"
bytes = "1"
cid = "*"
crossterm = "*"
fastmurmur3 = "*"
futures = "0.3"
http = "*"
libp2p = { version = "*", default-features = false }
nix = { version = "*", features = ["signal", "process"] }
rand = "0.8"
serde_json = "1"
tokio = { version = "1", features = ["rt-multi-thread", "sync", "time", "macros"] }
url = "2"
