[package]
name = "julia_blockchain"
version = "0.1.0"
edition = "2021"
publish = false

[dependencies]
crypto-hash = "0.3"
rand = "0.8"
image = { version = "0.24", default-features = false, features = ["png"] }
