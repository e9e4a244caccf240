[package]
name = "oauth2"
version = "0.1.0"
edition = "2021"
publish = false

[dependencies]
url = "2"
curl = { version = "0.4", default-features = false }
