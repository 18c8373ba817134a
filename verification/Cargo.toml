[package]
name = "mastergen"
version = "0.1.0"
edition = "2021"
publish = false

[dependencies]
sha2 = "*"
clipboard = "*"
termion = "*"
