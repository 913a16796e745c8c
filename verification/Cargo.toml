[package]
name = "bgpsimulator"
version = "0.1.0"
edition = "2021"
publish = false

[dependencies]
ipnetwork = "*"
lru = "*"
bzip2 = "*"
rand = "*"
serde_json = "*"
