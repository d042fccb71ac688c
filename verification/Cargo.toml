[package]
name = "keyvaldb"
version = "0.1.0"
edition = "2021"
publish = false

[dependencies]
actix-web = "*"
env_logger = "*"
futures = "*"
serde = { version = "*", features = ["derive"] }
serde_json = "*"
