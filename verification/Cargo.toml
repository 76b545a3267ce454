[package]
name = "p2pmsg_lib"
version = "0.1.0"
edition = "2021"
publish = false

[dependencies]
bytes = "1"
serde_json = "1"
serde = { version = "1", features = ["derive"] }
tokio = { version = "1", features = ["net", "rt-multi-thread", "macros", "sync", "io-util"] }
tokio-util = { version = "0.7", features = ["codec"] }
futures = "0.3"
clap = "4"
log = "0.4"
env_logger = "0.11"
