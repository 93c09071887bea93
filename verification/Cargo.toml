[package]
name = "little_raft"
version = "0.1.0"
edition = "2021"
publish = false

[dependencies]
log = "0.4"
log-derive = "0.4"
madsim = "0.2"
rand = "0.8"
tokio = { version = "1", features = ["macros", "rt", "sync", "time"] }
