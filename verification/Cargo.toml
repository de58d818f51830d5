[package]
name = "landlockconfig"
version = "0.1.0"
edition = "2021"
publish = false

[dependencies]
landlock = "*"
serde = { version = "*", features = ["derive"] }
serde_json = "*"
toml = "*"
