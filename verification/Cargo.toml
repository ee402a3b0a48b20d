[package]
name = "abac"
version = "0.1.0"
edition = "2021"
publish = false

[dependencies]
lmdb = "=0.8.0"
lmdb-sys = "=0.8.0"
clap = { version = "=4.6.7", features = ["derive"] }
