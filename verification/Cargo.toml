[package]
name = "covered_shorts"
version = "0.1.0"
edition = "2021"
publish = false

[dependencies]
substrate-fixed = "*"
frame-support = { version = "*", default-features = false, features = ["std"] }
sp-runtime = { version = "*", default-features = false, features = ["std"] }
log = "0.4"
