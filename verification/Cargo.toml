[package]
name = "vimv"
version = "0.1.0"
edition = "2021"
publish = false

[dependencies]
arguably = "*"
colored = "*"
edit = "*"
rand = "*"
trash = "*"
