[package]
name = "hiddenwave"
version = "0.1.0"
edition = "2021"
publish = false

[dependencies]
aes-gcm = "0.10"
pbkdf2 = "0.12"
sha2 = "0.10"
thiserror = "1"
clap = { version = "4", features = ["derive"] }
colored = "2"
