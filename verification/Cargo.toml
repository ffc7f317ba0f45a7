[package]
name = "rmcts"
version = "0.1.0"
edition = "2021"
publish = false

[dependencies]
egg = "0.9"
libc = "0.2"
rand = "0.8"
