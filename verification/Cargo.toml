[package]
name = "mayo"
version = "0.1.0"
edition = "2021"
publish = false

[dependencies]
aes = "0.8"
ctr = "0.9"
rand = "0.8"
sha3 = "0.10"
