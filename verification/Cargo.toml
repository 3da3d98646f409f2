[package]
name = "manifestus"
version = "0.0.0"
edition = "2021"
publish = false

[dependencies]
blake3 = "1"
hashbrown = "*"
libc = "0.2"
vsf = "*"
