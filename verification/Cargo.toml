[package]
name = "directed_diameter"
version = "0.1.0"
edition = "2021"
publish = false

[dependencies]
ac-library-rs = "*"
rand = "0.8"
proconio = "*"
