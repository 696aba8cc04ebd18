[package]
name = "yac_model"
version = "0.1.0"
edition = "2021"
publish = false

[dependencies]
hex = "*"
urlencoding = "*"
regex = "*"
uuid = { version = "*", features = ["v3", "v4"] }
chrono = "*"
blurhash-wasm = "*"
egui = "*"
image = { version = "*", default-features = false, features = ["png", "jpeg", "gif", "webp"] }
tokio = { version = "*", features = ["sync", "fs", "io-util", "rt"] }
reqwest = { version = "*", default-features = false }
webp = "*"
