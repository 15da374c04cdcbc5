[package]
name = "padding_oracle"
version = "0.1.0"
edition = "2021"

[dependencies]
aes = "0.7"
block-modes = "0.8"
colored = "2"
hkdf = "0.12"
rand = "0.8"
sha2 = "0.10"
