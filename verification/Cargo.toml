[package]
name = "record_store"
version = "0.1.0"
edition = "2021"
publish = false

[dependencies]
actix-web = "*"
bcrypt = "*"
rand = "*"
serde = { version = "*", features = ["derive"] }
serde_json = "*"
tokio = { version = "*", features = ["fs", "io-util", "rt", "macros"] }
