[package]
name = "easytier"
version = "0.1.0"
edition = "2021"
rust-version = "1.95"
publish = false

[dependencies]
cidr = "0.2"
humansize = "2"
serde = { version = "1", features = ["derive"] }
serde_json = "1"
tokio = { version = "1", features = ["rt", "rt-multi-thread", "sync", "time"] }
tokio-util = "0.7"
clap = "4"
clap_complete = "4"
lazy_static = "1"
tabled = "0.16"
