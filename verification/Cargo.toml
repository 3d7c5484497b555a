[package]
name = "quadimg"
version = "0.1.0"
edition = "2021"
publish = false

[dependencies]
bitvec = "*"
deflate = "*"
image = { version = "*", default-features = false, features = ["png"] }
