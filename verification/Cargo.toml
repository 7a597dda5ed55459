[package]
name = "locat"
version = "0.1.0"
edition = "2021"
publish = false

[dependencies]
maxminddb = "*"
thiserror = "*"
tokio = { version = "*", features = ["fs", "rt-multi-thread", "macros"] }
tokio-rusqlite = { version = "*", features = ["bundled"] }
