[package]
name = "optipng_rs"
version = "0.1.0"
edition = "2021"
publish = false

[dependencies]
console = "0.16"
indicatif = "0.18"
sysinfo = { version = "0.37", default-features = false, features = ["system"] }
