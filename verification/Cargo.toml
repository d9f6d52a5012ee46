[package]
name = "aida64_keys"
version = "0.1.0"
edition = "2021"
publish = false

[dependencies]
rand = "0.7"
chrono = "0.4"
