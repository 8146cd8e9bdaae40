[package]
name = "p2p_sys"
version = "0.1.0"
edition = "2021"
publish = false

[dependencies]
sha2 = "0.10"
rand = "0.8"
hex = "0.4"
serde = { version = "1", features = ["derive"] }
serde_json = "1"
chrono = { version = "0.4", default-features = false, features = ["std", "serde", "now"] }
clap = { version = "4", features = ["derive"] }
tokio = { version = "1", features = ["macros", "rt-multi-thread", "io-std", "io-util", "time", "fs"] }
futures = "0.3"
tracing-subscriber = { version = "0.3", features = ["env-filter"] }
async-trait = "0.1"
libp2p = { version = "0.54", features = ["gossipsub", "mdns", "tokio", "tcp", "quic", "noise", "yamux", "macros", "request-response"] }
