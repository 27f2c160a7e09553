[package]
name = "web_app_hub"
version = "0.1.0"
edition = "2021"
publish = false

[dependencies]
anyhow = "1"
rust-i18n = "3"
serde_json = "1"
tracing = "0.1"
tracing-subscriber = { version = "0.3", features = ["env-filter"] }
