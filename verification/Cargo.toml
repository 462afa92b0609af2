[package]
name = "forum_threads"
version = "0.1.0"
edition = "2021"
publish = false

[dependencies]
regex = "*"
tokenizers = { version = "*", features = ["http"] }
serde = { version = "*", features = ["derive"] }
serde_json = "*"
crossbeam-channel = "*"
rayon = "*"
tokio = { version = "*", features = ["rt", "rt-multi-thread", "fs", "io-util"] }
clap = { version = "*", features = ["derive"] }
indicatif = "*"

[dev-dependencies]
rand = "*"
