[package]
name = "typespec"
version = "0.1.0"
edition = "2021"
publish = false

[dependencies]
clap = { version = "3", features = ["cargo"] }
glob = "0.3"
regex-syntax = "0.8"
serde_json = "1"

[dev-dependencies]
regex = "1"
