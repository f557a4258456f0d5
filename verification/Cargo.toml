[package]
name = "bmsgen"
version = "0.1.0"
edition = "2021"
publish = false

[dependencies]
base64 = "0.22"
encoding_rs = "0.8"
clap = { version = "4", features = ["derive"] }
wasm-bindgen = "0.2"
