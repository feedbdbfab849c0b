[package]
name = "mnemona"
version = "0.1.0"
edition = "2021"
publish = false

[dependencies]
rand = "*"
chrono = "*"
serde = { version = "*", features = ["derive"] }
serde_json = "*"
