[package]
name = "rawgrep"
version = "0.1.0"
edition = "2021"
publish = false

[dependencies]
memchr = "=2.8.3"
nohash-hasher = "=0.2.0"
regex-syntax = "=0.8.11"
libc = "=0.2.191"
