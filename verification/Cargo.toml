[package]
name = "queue_bot"
version = "0.1.0"
edition = "2021"
publish = false

[dependencies]
chrono = { version = "=0.4.45", features = ["serde"] }
dashmap = { version = "=6.2.1", features = ["serde"] }
itertools = "=0.13.0"
poise = "=0.6.2"
rand = "=0.8.8"
serde = { version = "=1.0.229", features = ["derive"] }
serde_json = "=1.0.154"
skillratings = { version = "=0.27.1", features = ["serde"] }
tokio = { version = "=1.54.1", features = ["full"] }
uuid = { version = "=1.29.0", features = ["v4", "serde"] }
