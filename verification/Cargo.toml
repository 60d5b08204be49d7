[package]
name = "keyring_env"
version = "0.1.0"
edition = "2021"
publish = false

[dependencies]
base64 = "*"
oo7 = "*"
tokio = { version = "*", features = ["rt", "macros"] }
