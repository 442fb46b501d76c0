[package]
name = "cache_buster"
version = "0.1.0"
edition = "2021"
publish = false

[dependencies]
sha2 = "*"
data-encoding = "*"
mime = "*"
mime_guess = "*"
walkdir = "*"
