[package]
name = "signaling"
version = "0.1.0"
edition = "2021"
publish = false

[dependencies]
sansio = "*"
serde = { version = "1", features = ["derive"] }
serde_json = "1"
