[package]
name = "base8_codec"
version = "0.1.0"
edition = "2021"

[dependencies]
thiserror = "1"
wasm-bindgen = "0.2"
