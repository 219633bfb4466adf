[package]
name = "sftp"
version = "0.1.0"
edition = "2021"
publish = false

[dependencies]
aes = "=0.8.4"
ctr = "=0.9.2"
ed25519-dalek = "=2.2.0"
getrandom = "=0.2.17"
hmac = "=0.12.1"
sha2 = "=0.10.9"
x25519-dalek = { version = "=2.0.1", features = ["static_secrets"] }
