[package]
name = "rust_land"
version = "0.1.0"
edition = "2021"

[dependencies]
minifb = "*"
rand = "0.8"
