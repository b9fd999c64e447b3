[package]
name = "cryptostream"
version = "0.1.0"
edition = "2021"
publish = false

[dependencies]
rust-crypto = "0.2"
rand = "0.8"
flate2 = "*"
tar = "*"
