[package]
name = "tessera_engine"
version = "0.1.0"
edition = "2021"
publish = false

[dependencies]
arrow = { version = "53", default-features = false }
base64 = "0.22"
chacha20poly1305 = "0.10"
croaring = "2"
rand = "0.8"
rayon = "1"
sha2 = "0.10"
