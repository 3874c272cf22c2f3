[package]
name = "ljm_daq"
version = "0.1.0"
edition = "2021"
publish = false

[dependencies]
chrono = "=0.4.45"
chrono-tz = "=0.10.4"
serde_json = { version = "=1.0.151", features = ["float_roundtrip"] }
serde = { version = "=1.0.229", features = ["derive"] }
tokio = { version = "=1.53.2", features = ["full"] }
async-nats = "=0.50.0"
futures-util = "=0.3.34"
anyhow = "=1.0.104"
parquet = "=60.0.0"
ljmrs = { version = "=0.2.2", default-features = false, features = ["dynlink", "stream", "serde"] }
