[package]
name = "msg_encoder"
version = "0.1.0"
edition = "2021"
publish = false

[dependencies]
hound = "3"
realfft = "3"
serde = { version = "1", features = ["derive"] }
serde_json = "1"
wasm-bindgen = "0.2"
