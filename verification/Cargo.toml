[package]
name = "azoth"
version = "0.1.0"
edition = "2021"
publish = false

[dependencies]
getrandom = "=0.2.17"
sha3 = "=0.10.9"
sha2 = "=0.10.9"
hmac = "=0.12.1"
argon2 = "=0.5.3"
aes = "=0.8.4"
ctr = "=0.9.2"
chacha20 = "=0.9.1"
subtle = "=2.6.1"
zeroize = "=1.9.1"
anyhow = "=1.0.104"
clap = { version = "=4.6.7", features = ["derive"] }
hex = "=0.4.3"
rpassword = "=7.5.4"
