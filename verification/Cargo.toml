[package]
name = "key_art"
version = "0.1.0"
edition = "2021"
publish = false

[dependencies]
clap = "=4.6.7"
hex = "=0.4.3"
