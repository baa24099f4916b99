[package]
name = "rolling_delta"
version = "0.1.0"
edition = "2021"
publish = false

[dependencies]
md4 = "0.10"
digest = "0.10"
base16ct = { version = "0.2", features = ["alloc"] }
