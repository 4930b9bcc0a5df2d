[package]
name = "netstring"
version = "0.1.0"
edition = "2021"
publish = false

[dependencies]
bytes = "1"
serde = "1"
serde_derive = "1"
rmp-serde = "1"
tokio = { version = "1", features = ["rt", "net", "io-util", "sync", "macros"] }
