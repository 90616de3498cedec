[package]
name = "nebula"
version = "0.1.0"
edition = "2021"
publish = false

[dependencies]
aes-gcm = "0.10"
chacha20poly1305 = "0.10"
ed25519-dalek = "2"
hex = "0.4"
ipnet = "2"
libc = "0.2"
pem = "3"
prost = "0.13"
sha2 = "0.10"
snow = { version = "0.10", features = ["risky-raw-split"] }
thiserror = "2"
tokio = { version = "1", features = ["net", "rt-multi-thread", "sync", "time", "macros"] }
