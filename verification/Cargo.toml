[package]
name = "qchain"
version = "0.1.0"
edition = "2021"
publish = false

[dependencies]
aes-gcm = "=0.10.3"
anyhow = "=1.0.104"
argon2 = "=0.5.3"
axum = "=0.7.9"
base64 = "=0.22.1"
borsh = { version = "=1.8.1", features = ["derive"] }
bs58 = "=0.5.1"
clap = { version = "=4.6.7", features = ["derive"] }
ed25519-dalek = { version = "=2.2.0", features = ["rand_core"] }
fips204 = "=0.5.0"
getrandom = "=0.2.17"
hex = "=0.4.3"
qrcode = { version = "=0.14.1", default-features = false, features = ["svg"] }
rand = "=0.8.8"
redb = "=2.6.4"
reqwest = { version = "=0.12.28", default-features = false, features = ["json", "blocking"] }
serde = { version = "=1.0.229", features = ["derive"] }
serde_json = "=1.0.154"
sha2 = "=0.10.9"
sha3 = "=0.10.9"
sled = "=0.34.7"
subtle = "=2.6.1"
thiserror = "=1.0.69"
tokio = { version = "=1.54.1", features = ["full"] }
tracing = "=0.1.44"
tracing-subscriber = { version = "=0.3.23", features = ["env-filter"] }
winterfell = "=0.13.1"
