[package]
name = "austro"
version = "0.1.0"
edition = "2021"
publish = false

[dependencies]
sha2 = "0.10"
hex = "0.4"
secp256k1 = { version = "0.29", features = ["rand-std"] }
rand = "0.8"
bs58 = "0.5"
bip39 = "2"
pbkdf2 = "0.12"
argon2 = "0.5"
aes-gcm = "0.10"
zeroize = "1"
serde = { version = "1", features = ["derive"] }
serde_json = "1"
sled = "0.34"
tokio = { version = "1", features = ["full"] }
axum = "0.7"
tower-http = { version = "0.5", features = ["cors", "fs", "trace"] }
tracing = "0.1"
tracing-subscriber = { version = "0.3", features = ["env-filter", "json", "time"] }
tracing-appender = "0.2"
futures = "0.3"
libp2p = { version = "0.53", features = ["gossipsub", "mdns", "tokio", "tcp", "noise", "yamux", "macros"] }
libp2p-swarm = { version = "0.44", features = ["macros"] }
