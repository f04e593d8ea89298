[package]
name = "json"
version = "0.1.0"
edition = "2021"
publish = false

[dependencies]
linked-hash-map = "0.5"
colored = "2"
clap = { version = "4", features = ["cargo"] }
