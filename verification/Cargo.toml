[package]
name = "entangled_substrate"
version = "0.1.0"
edition = "2021"
publish = false

[dependencies]
blake3 = "1"
ml-dsa = "*"
sha3 = "0.10"
