[package]
name = "kmap"
version = "0.1.0"
edition = "2021"
publish = false

[dependencies]
bcrypt = "*"
tokio = { version = "*", features = ["full"] }
redis = { version = "*", features = ["tokio-comp"] }
serde = { version = "*", features = ["derive"] }
serde_json = "*"
chrono = "*"
uuid = { version = "*", features = ["v4"] }
tracing = "*"
tracing-subscriber = "*"
