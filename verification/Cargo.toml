[package]
name = "show_and_tell"
version = "0.1.0"
edition = "2021"
publish = false

[dependencies]
rand = "*"
