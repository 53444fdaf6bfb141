[package]
name = "static_serve"
version = "0.1.0"
edition = "2021"
publish = false

[dependencies]
mime_guess = "=1.8.8"
