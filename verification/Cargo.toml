[package]
name = "merkle_deps"
version = "0.1.0"
edition = "2021"
publish = false

[dependencies]
ring = "*"
hex = "*"
sha2 = "*"
