[package]
name = "pror"
version = "0.1.0"
edition = "2021"
publish = false

[dependencies]
itertools = "*"
rand = "0.9"
rand_pcg = "0.9"
