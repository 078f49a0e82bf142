[package]
name = "teams_cli"
version = "0.1.0"
edition = "2021"
publish = false

[dependencies]
keyring = { version = "3", default-features = false }
serde = { version = "1", features = ["derive"] }
serde_json = "1"
