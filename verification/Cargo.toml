[package]
name = "raft"
version = "0.1.0"
edition = "2021"
publish = false

[dependencies]
bincode = "1"
serde = { version = "1", features = ["derive"] }
serde_json = "1"
regex = "1"
rand = "0.8"
log = "0.4"
tracing-subscriber = "0.3"
tracing-appender = "0.2"
