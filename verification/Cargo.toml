[package]
name = "csvm"
version = "0.1.0"
edition = "2021"
publish = false

[dependencies]
memchr = "=2.8.3"
unicode-width = "=0.2.3"
regex = "=1.13.1"
tulisp = "=0.28.0"
crossbeam-channel = "=0.5.17"
libc = "=0.2.191"
arrow = { version = "=60.1.0", default-features = false }
parquet = { version = "=60.1.0", default-features = false, features = ["arrow", "snap"] }
