[package]
name = "iota_editor"
version = "0.1.0"
edition = "2021"
publish = false

[dependencies]
ropey = { version = "=1.6.1", default-features = false, features = ["simd"] }
tokio = { version = "=1.53.2", features = ["rt-multi-thread", "io-util", "sync", "fs", "macros"] }
interprocess = { version = "=2.4.4", features = ["tokio"] }
