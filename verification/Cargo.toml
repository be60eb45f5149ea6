[package]
name = "peershare_core"
version = "0.1.0"
edition = "2021"
publish = false

[dependencies]
blake3 = "*"
base64 = "*"
hex = "*"
sled = "*"
anyhow = "*"
getrandom = "0.2"

[dev-dependencies]
bao = "*"
