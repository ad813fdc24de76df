[package]
name = "magikitten"
version = "0.1.0"
edition = "2021"
publish = false

[dependencies]
ck-meow = "*"
rand_core = "0.6.4"
