[package]
name = "kvs"
version = "0.1.0"
edition = "2021"
publish = false

[dependencies]
dashmap = "5"
fasthash = "0.4"
serde = { version = "1", features = ["derive"] }
serde_json = "1"
reqwest = { version = "0.11", default-features = false, features = ["json"] }
tokio = { version = "1", features = ["rt-multi-thread", "macros", "sync"] }
warp = { version = "0.3", default-features = false }
log = "0.4"
log4rs = "1"
signal-hook = "0.3"
leveldb = "0.8"
db-key = "0.0.5"
