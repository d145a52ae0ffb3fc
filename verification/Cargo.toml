[package]
name = "opaque_id"
version = "0.1.0"
edition = "2021"
publish = false

[dependencies]
aes = "0.8"
base62 = "2"
crc = "3"
lru = "0.12"
sha2 = "0.10"
wasm-bindgen = "0.2"
