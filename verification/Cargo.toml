[package]
name = "rs_core"
version = "0.1.0"
edition = "2021"
publish = false

[dependencies]
rust-stemmers = "*"
stop-words = "*"
uuid = { version = "*", features = ["v4"] }
lopdf = "*"
