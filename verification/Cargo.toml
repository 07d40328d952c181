[package]
name = "syslog_viewer"
version = "0.1.0"
edition = "2021"
publish = false

[dependencies]
chrono = "*"
tokio = { version = "*", features = ["fs", "io-util", "sync", "time", "rt-multi-thread", "macros"] }
tokio-util = "*"
notify = "*"
futures = "*"
anyhow = "*"
