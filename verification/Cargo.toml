[package]
name = "seedcore"
version = "0.1.0"
edition = "2021"
publish = false

[dependencies]
sha1 = "0.10"
rand = "0.8"

[dev-dependencies]
hex = "0.4"
urlencoding = "2"
