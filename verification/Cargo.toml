[package]
name = "raicoin"
version = "0.1.0"
edition = "2021"
publish = false

[dependencies]
rust-crypto = "=0.2.36"
secp256k1 = { version = "=0.33.1", features = ["rand"] }
rand = "=0.9.5"
clap = "=4.6.7"
