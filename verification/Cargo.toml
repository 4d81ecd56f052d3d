[package]
name = "algorithm_j"
version = "0.1.0"
edition = "2021"
publish = false

[dependencies]
peeking_take_while = "*"
