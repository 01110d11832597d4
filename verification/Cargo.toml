[package]
name = "elude"
version = "0.1.0"
edition = "2021"
publish = false

[dependencies]
anyhow = "1"
arc-swap = "1"
libc = "0.2"
page_size = "0.6"
parking_lot = "0.12"
rayon = "1"
slice-dst = "1"
triomphe = "0.1"

[dev-dependencies]
checkito = "*"
