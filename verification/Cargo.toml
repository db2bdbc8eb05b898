[package]
name = "netrunner_engine"
version = "0.1.0"
edition = "2021"
publish = false

[dependencies]
aead = { version = "=0.5.2", features = ["bytes", "getrandom", "rand_core"] }
bytes = "=1.12.1"
chacha20poly1305 = "=0.10.1"
hex = "=0.4.3"
hkdf = "=0.12.4"
hmac = "=0.12.1"
rand = "=0.10.3"
regex = "=1.13.1"
sha2 = "=0.10.9"
subtle = "=2.6.1"
tracing = "=0.1.44"
tracing-android = "0.2"
tracing-appender = "=0.2.5"
tracing-subscriber = { version = "=0.3.23", features = ["env-filter", "json"] }
web-time = "=1.1.0"
x25519-dalek = { version = "=2.0.1", features = ["static_secrets"] }
zeroize = "=1.9.1"
