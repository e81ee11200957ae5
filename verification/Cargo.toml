[package]
name = "rivia"
version = "0.1.0"
edition = "2021"
publish = false

[dependencies]
itertools = "*"
nix = { version = "*", features = ["user", "fs"] }
