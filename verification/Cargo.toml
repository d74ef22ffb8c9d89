[package]
name = "lsdata"
version = "0.1.0"
edition = "2021"
publish = false

[dependencies]
indexmap = "*"
utf8-chars = "*"
implicit-clone = "*"
