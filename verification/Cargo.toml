[package]
name = "diaryx_daily"
version = "0.1.2"
edition = "2021"
publish = false

[dependencies]
chrono = { version = "=0.4.45", default-features = false, features = ["std", "alloc"] }
chrono-english = "=0.1.8"
diaryx_core = { version = "=1.3.2", default-features = false }
indexmap = "=2.14.2"
pathdiff = "=0.2.3"
serde = { version = "=1.0.229", features = ["derive"] }
serde_json = "=1.0.154"
serde_yaml = "0.9"
thiserror = "=2.0.21"
diaryx_plugin_sdk = "=0.3.4"
extism-pdk = "=1.4.1"
