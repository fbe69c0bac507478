[package]
name = "phprs"
version = "0.1.0"
edition = "2021"
publish = false

[dependencies]
itoa = "1"
ryu = "1"
lazy_static = "1"
