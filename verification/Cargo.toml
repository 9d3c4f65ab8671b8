[package]
name = "fastx"
version = "0.1.0"
edition = "2021"
publish = false

[dependencies]
nom = "3.2"
error-chain = { version = "0.12", default-features = false }
