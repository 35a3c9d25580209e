[package]
name = "rustdatabasen"
version = "0.1.0"
edition = "2021"
publish = false

[dependencies]
aes-gcm = "=0.10.3"
argon2 = "=0.5.3"
base64 = "=0.21.7"
rand = "=0.8.8"
eframe = { version = "=0.22.0", default-features = false, features = ["glow"] }
serde = { version = "=1.0.229", features = ["derive"] }
serde_yaml = "=0.9.34"
chrono = { version = "0.4", default-features = false, features = ["clock", "std"] }
rpassword = "7"
