[package]
name = "ditto_cot"
version = "0.1.0"
edition = "2021"
publish = false

[dependencies]
quick-xml = "=0.31.0"
roxmltree = "=0.19.0"
chrono = { version = "=0.4.45", features = ["serde"] }
serde = { version = "=1.0.229", features = ["derive"] }
serde_json = "=1.0.154"
uuid = { version = "=1.29.0", features = ["v4"] }
ryu = "=1.0.23"
anyhow = "=1.0.104"
thiserror = "=1.0.69"

[dev-dependencies]
base64 = "0.22"
