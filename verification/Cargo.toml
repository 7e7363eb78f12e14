[package]
name = "password_vault"
version = "0.1.0"
edition = "2021"
publish = false

[dependencies]
aes-gcm = "0.10"
base64 = "0.21"
regex = "1"
sha256 = "1"
uuid = { version = "1", features = ["v4"] }
diesel = { version = "2", features = ["mysql"] }
rocket = { version = "0.5", features = ["json"] }
