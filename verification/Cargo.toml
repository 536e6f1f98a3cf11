[package]
name = "loitsu"
version = "0.1.0"
edition = "2021"
publish = false

[dependencies]
zstd = "*"
image = { version = "*", default-features = false, features = ["png", "jpeg"] }
serde = { version = "*", features = ["derive"] }
serde_json = "*"
walkdir = "*"
checksumdir = "*"
