[package]
name = "one_file_raft"
version = "0.1.0"
edition = "2021"
publish = false

[dependencies]
itertools = "*"
tokio = { version = "1", features = ["sync", "rt", "macros", "time"] }
anyhow = "1"
log = "0.4"
