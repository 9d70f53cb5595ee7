[package]
name = "buzz_rate_limit"
version = "0.1.0"
edition = "2021"
publish = false

[dependencies]
nostr = "0.44"
uuid = { version = "1", features = ["v4"] }
serde = { version = "1", features = ["derive"] }
deadpool-redis = "0.22"
redis = { version = "0.32", features = ["script", "tokio-comp"] }

[dev-dependencies]
sha2 = "0.10"
