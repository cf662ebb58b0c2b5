[package]
name = "boon"
version = "0.6.1"
edition = "2021"
publish = false

[dependencies]
serde = { version = "1", features = ["derive"] }
serde_json = "1"
regex = "1.10"
regex-syntax = "0.8"
url = "2"
fluent-uri = "0.1.4"
idna = "1"
percent-encoding = "2"
base64 = "0.22"
