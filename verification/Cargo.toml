[package]
name = "romdirfs"
version = "0.1.0"
edition = "2021"
publish = false

[dependencies]
fuse = "*"
libc = "*"
