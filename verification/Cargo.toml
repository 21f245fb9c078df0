[package]
name = "jw"
version = "0.1.0"
edition = "2021"
publish = false

[dependencies]
serde_json = "1"
crossterm = "0.28"
libc = "0.2"
