[package]
name = "reqwless"
version = "0.1.0"
edition = "2021"
publish = false

[dependencies]
base64 = "=0.23.1"
embedded-io = "*"
embedded-io-async = "*"
embedded-nal-async = "*"
httparse = "=1.10.1"
