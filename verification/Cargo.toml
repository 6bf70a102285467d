[package]
name = "metrics_procession"
version = "0.1.0"
edition = "2021"
publish = false

[dependencies]
log = "0.4"
metrics = "*"
serde = { version = "1", features = ["derive"] }
time = { version = "0.3", features = ["serde"] }

[dev-dependencies]
serde_json = "1"
