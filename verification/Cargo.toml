[package]
name = "rs_1brc"
version = "0.1.0"
edition = "2021"
publish = false

[dependencies]
memchr = "2"
clap = { version = "4", features = ["derive"] }
crossbeam-channel = "0.5"
