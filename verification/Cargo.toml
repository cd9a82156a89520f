[package]
name = "card_index"
version = "0.1.0"
edition = "2021"
publish = false

[dependencies]
uuid = { version = "1", features = ["v5"] }
serde = { version = "1", features = ["derive"] }
serde_json = "1"
redis = "0.27"
clap = { version = "4", features = ["derive"] }
anyhow = "1"
chrono = "0.4"
