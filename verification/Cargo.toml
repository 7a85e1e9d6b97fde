[package]
name = "otap_logs_export"
version = "0.1.0"
edition = "2021"
publish = false

[dependencies]
bytes = "1"
flate2 = "1"
tokio = { version = "1", features = ["time"] }
azure_core = "*"

[dev-dependencies]
serde_json = "1"
rand = "*"
