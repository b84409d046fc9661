[package]
name = "drop_bin"
version = "0.1.0"
edition = "2021"
publish = false

[dependencies]
try-mutex = "*"
try-rwlock = "*"
