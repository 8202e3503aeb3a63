[package]
name = "biadnet"
version = "0.1.0"
edition = "2021"
publish = false

[dependencies]
bitcoin_hashes = "*"
secp256k1 = "*"
siphasher = "*"
