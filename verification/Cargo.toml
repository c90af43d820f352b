[package]
name = "picotest"
version = "0.1.0"
edition = "2021"
publish = false

[dependencies]
base64 = "*"
libloading = "*"
serde = { version = "*", features = ["derive"] }
serde_yaml = "*"
rand = "*"
