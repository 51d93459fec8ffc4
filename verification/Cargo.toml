[package]
name = "mini_git"
version = "0.1.0"
edition = "2021"
publish = false

[dependencies]
bstr = "1"
chrono = "0.4"
colored = "2"
flate2 = "1"
glob = "0.3"
hex = "0.4"
sha1 = "0.10"
