[package]
name = "neaters"
version = "0.1.0"
edition = "2021"
publish = false

[dependencies]
rustc_apfloat = "=0.1.3"
rustc-hash = "*"
