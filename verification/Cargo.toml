[package]
name = "myrpc4rs"
version = "0.1.0"
edition = "2021"
publish = false

[dependencies]
bincode = "1"
serde = "1"
serde_derive = "1"
