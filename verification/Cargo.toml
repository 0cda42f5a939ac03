[package]
name = "shamir_zero"
version = "0.1.10"
edition = "2021"
publish = false

[dependencies]
rand = "*"
