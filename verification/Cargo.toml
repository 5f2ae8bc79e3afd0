[package]
name = "audiobook"
version = "0.1.0"
edition = "2021"
publish = false

[dependencies]
regex = "1"
image = { version = "0.25", default-features = false, features = ["bmp", "gif", "jpeg", "png", "webp"] }
serde_json = "1"
crossbeam-channel = "0.5"
indicatif = "*"
tracing = "0.1"
msedge-tts = "*"
