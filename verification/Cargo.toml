[package]
name = "rust_ob"
version = "0.1.0"
edition = "2021"
publish = false

[dependencies]
rust_decimal = "1"

[dev-dependencies]
rand = "0.8"
