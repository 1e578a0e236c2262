[package]
name = "quic-datagrams"
version = "0.1.0"
edition = "2021"
publish = false

[dependencies]
bytes = "1"
rustc-hash = "2"
thiserror = "2"
tracing = "0.1"
