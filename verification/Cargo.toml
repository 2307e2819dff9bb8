[package]
name = "blue_marble_front"
version = "0.1.0"
edition = "2021"
publish = false

[dependencies]
spacetimedb = "1"
