[package]
name = "hiway"
version = "0.1.0"
edition = "2021"
publish = false

[dependencies]
arc-swap = "1"
atomic-waker = "1.1"
spin = "0.9"
tokio = { version = "1", features = ["io-util", "macros", "net", "rt", "rt-multi-thread", "sync", "time"] }
