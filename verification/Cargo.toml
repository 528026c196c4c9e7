[package]
name = "strawberride"
version = "0.1.0"
edition = "2021"
publish = false

[dependencies]
byteorder = "1"
indent_write = "2"
indexmap = "2"
itertools = "*"
