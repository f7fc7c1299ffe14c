[package]
name = "maplog"
version = "0.1.0"
edition = "2021"
publish = false

[dependencies]
linked-hash-map = "0.5"
tracing = "0.1"
tracing-subscriber = "0.3"
