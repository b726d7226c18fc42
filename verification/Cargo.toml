[package]
name = "duhast"
version = "0.1.0"
edition = "2021"
publish = false

[dependencies]
crc32c-hw = "*"
rand = "0.8"
rand_chacha = "0.3"
rand_core = "0.6"
tokio = { version = "1", features = ["rt", "rt-multi-thread", "net", "time", "sync", "macros"] }
