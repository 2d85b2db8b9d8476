[package]
name = "open_match_rs"
version = "0.1.0"
edition = "2021"
publish = false

[dependencies]
dashmap = "6"
quanta = "0.12"
