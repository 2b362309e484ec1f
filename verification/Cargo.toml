[package]
name = "redis_rust"
version = "0.1.0"
edition = "2021"
publish = false

[dependencies]
dashmap = "*"
log = "*"
simple_logger = "*"
