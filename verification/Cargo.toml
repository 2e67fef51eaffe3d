[package]
name = "kractor"
version = "0.1.0"
edition = "2021"
publish = false

[dependencies]
aho-corasick = "1"
libdeflater = "1"
crossbeam-channel = "0.5"
flate2 = "1"
indicatif = "0.17"
anyhow = "1"
