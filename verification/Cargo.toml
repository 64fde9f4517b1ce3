[package]
name = "qawakun"
version = "0.1.0"
edition = "2021"
publish = false

[dependencies]
aes-gcm = "=0.10.3"
chrono = { version = "0.4", default-features = false, features = ["clock", "std"] }
ethers = { version = "=2.0.14", default-features = false }
hex = "=0.4.3"
rand = "=0.8.8"
redis = { version = "0.24", default-features = false }
serde = { version = "1", features = ["derive"] }
serde_json = "1"
