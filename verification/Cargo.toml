[package]
name = "eurovote"
version = "0.1.0"
edition = "2021"
publish = false

[dependencies]
itertools = "=0.15.0"
strum = { version = "=0.28.0", features = ["derive"] }
respan = "=0.1.6"
preinterpret = "=0.2.1"
