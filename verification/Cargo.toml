[package]
name = "qwasr"
version = "0.1.0"
edition = "2021"
publish = false

[dependencies]
sha2 = "=0.11.0"
base64ct = { version = "=1.8.3", features = ["alloc"] }
