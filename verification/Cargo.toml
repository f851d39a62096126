[package]
name = "amazons"
version = "0.1.0"
edition = "2021"

[dependencies]
bv = "*"
smallvec = "*"
termion = "*"
