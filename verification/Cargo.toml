[package]
name = "justbot"
version = "1.0.0"
edition = "2021"
publish = false

[dependencies]
rand = "0.9"
