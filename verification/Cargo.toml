[package]
name = "rusty_merkle"
version = "0.1.0"
edition = "2021"
publish = false

[dev-dependencies]
rand = "*"
