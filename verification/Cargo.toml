[package]
name = "iterdns"
version = "0.1.0"
edition = "2021"
publish = false

[dependencies]
env_logger = "*"
log = "0.4"
trust-dns-client = "0.20"
