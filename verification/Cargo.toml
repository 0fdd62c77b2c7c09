[package]
name = "glstsp"
version = "0.1.0"
edition = "2021"
publish = false

[dependencies]
rand = "0.8"
rand_mt = "4"
