[package]
name = "sfwsvm"
version = "0.1.0"
edition = "2021"
publish = false

[dependencies]
fnv = "1"
rand = "0.8"
libflate = "*"
serde = "1"
serde_derive = "1"
serde_json = "1"
