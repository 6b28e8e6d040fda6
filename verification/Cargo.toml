[package]
name = "comere"
version = "0.1.0"
edition = "2021"
publish = false

[dependencies]
clap = "2"
lazy_static = "1"
rand = "0.4"
time = "0.1"
