[package]
name = "alglobo"
version = "0.1.0"
edition = "2021"
publish = false

[dependencies]
serde_yaml = "0.8"
rand = "0.8"
chrono = { version = "0.4", default-features = false, features = ["clock"] }
