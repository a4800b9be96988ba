[package]
name = "soulbeet_library"
version = "0.1.0"
edition = "2021"
publish = false

[dependencies]
dioxus = "0.7"
rusqlite = { version = "*", features = ["bundled"] }
tokio = { version = "1", features = ["rt", "fs", "process"] }
tracing = "0.1"
