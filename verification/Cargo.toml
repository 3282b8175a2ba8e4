[package]
name = "ankisyncd"
version = "0.1.0"
edition = "2021"
publish = false

[dependencies]
flate2 = "1"
md5 = "0.7"
rand = "0.8"
zip = "*"
