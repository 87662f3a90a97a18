[package]
name = "meshcore"
version = "0.1.0"
edition = "2021"
publish = false

[dependencies]
chacha20poly1305 = "0.10"
ed25519-dalek = "2"
getrandom = "0.2"
jni = "0.21"
sha2 = "0.10"
x25519-dalek = { version = "2", features = ["static_secrets"] }
zeroize = "1"
