[package]
name = "safeparts"
version = "0.1.0"
edition = "2021"
publish = false

[dependencies]
anyhow = "=1.0.104"
argon2 = "=0.5.3"
base64 = "=0.22.1"
bip39 = "=2.2.2"
blake3 = { version = "=1.8.7", default-features = false, features = ["std", "pure"] }
bs58 = { version = "=0.5.1", features = ["check"] }
chacha20poly1305 = "=0.10.1"
clap = { version = "=4.6.7", features = ["derive"] }
rand = "=0.8.8"
serde = { version = "=1.0.229", features = ["derive"] }
serde_json = "1"
thiserror = "=1.0.69"
zeroize = "=1.9.1"
