[package]
name = "fraud_detector"
version = "0.1.0"
edition = "2021"
publish = false

[dependencies]
memchr = "2"
libc = "0.2"
memmap2 = "0.9"
flate2 = "1"
serde = { version = "1", features = ["derive"] }
serde_json = "1"
anyhow = "1"
mimalloc = { version = "0.1", default-features = false }
ureq = "2"
socket2 = "0.5"
monoio = "0.2"
hostname = "0.4"
