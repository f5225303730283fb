[package]
name = "rhythms"
version = "0.1.0"
edition = "2021"

[dependencies]
smallvec = "1"
