[package]
name = "rgb_disclosure"
version = "0.1.0"
edition = "2021"
publish = false

[dependencies]
bitcoin = "=0.28.2"
bech32 = "=0.9.1"
