[package]
name = "prime_factors"
version = "0.1.0"
edition = "2021"
publish = false

[dependencies]
num = "*"
primal = "*"
