[package]
name = "higher_core"
version = "0.1.0"
edition = "2021"
publish = false

[dependencies]
crc32fast = "1"
sha2 = "0.10"
wasm-bindgen = "0.2"
