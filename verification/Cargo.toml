[package]
name = "zigen_trainer"
version = "0.1.0"
edition = "2021"
publish = false

[dependencies]
chrono = "0.4"
rand = "0.9"
serde = { version = "1", features = ["derive"] }
serde_derive = "1"
serde_json = "1"
