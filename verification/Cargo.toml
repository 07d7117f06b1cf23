[package]
name = "kotlin_releases_bot"
version = "0.1.0"
edition = "2021"
publish = false

[dependencies]
quick-xml = "=0.42.0"
serde = "=1.0.229"
serde_json = "=1.0.154"
worker = "=0.8.7"
