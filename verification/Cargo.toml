[package]
name = "preidolia"
version = "0.1.0"
edition = "2021"
publish = false

[dependencies]
anyhow = "1"
nom = { version = "6", default-features = false, features = ["std"] }
tobytes = "*"
