[package]
name = "sync_rs"
version = "0.1.0"
edition = "2021"
publish = false

[dependencies]
notify = "6"
rusqlite = "0.31"
sha2 = "0.10"
tokio = { version = "1", features = ["rt-multi-thread", "macros", "sync"] }
uuid = { version = "1", features = ["v4"] }
walkdir = "2"
