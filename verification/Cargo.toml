[package]
name = "transocks"
version = "0.1.0"
edition = "2021"
publish = false

[dependencies]
libc = "*"
privdrop = "*"
trust-dns-proto = { version = "*", default-features = false }
log = "*"
env_logger = "*"
