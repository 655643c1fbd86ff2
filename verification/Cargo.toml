[package]
name = "price_providers"
version = "0.1.0"
edition = "2021"
publish = false

[dependencies]
chrono = "=0.4.45"
redis = "=1.8.0"
reqwest = { version = "=0.13.5", features = ["blocking", "query"] }
serde_json = "=1.0.154"
