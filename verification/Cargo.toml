[package]
name = "logdrain"
version = "0.3.2"
edition = "2021"
publish = false

[dependencies]
regex = "1"
bincode = "1"
serde = { version = "1", features = ["derive", "rc"] }
serde_json = "1"
smallvec = "1"
dashmap = "6"
rustc-hash = "2"
thiserror = "2"
clap = { version = "4", features = ["derive"] }
chrono = "0.4"
redis = "*"
rdkafka = "*"
