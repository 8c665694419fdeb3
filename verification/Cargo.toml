[package]
name = "testownik"
version = "0.1.0"
edition = "2021"
publish = false

[dependencies]
encoding_rs = "0.8"
fancy-regex = "*"
regex = "1"
serde = { version = "1", features = ["derive"] }
serde_json = "1"
