[package]
name = "chat_core"
version = "0.1.0"
edition = "2021"
publish = false

[dependencies]
async-std = "1"
