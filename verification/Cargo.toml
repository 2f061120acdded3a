[package]
name = "actor_cache"
version = "0.1.0"
edition = "2021"
publish = false

[dependencies]
crc16-xmodem-fast = "*"
tokio = { version = "*", features = ["rt", "rt-multi-thread", "sync", "time", "macros"] }
