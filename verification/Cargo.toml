[package]
name = "ron"
version = "0.1.0"
edition = "2021"
publish = false

[dependencies]
serde = "=0.6.15"
