[package]
name = "telemetry_pipeline"
version = "0.1.0"
edition = "2021"
publish = false

[dependencies]
prometheus = "=0.14.0"
actix-web = "=4.15.0"
actix-web-prom = "=0.10.0"
tokio = { version = "=1.53.2", features = ["full"] }
serde = { version = "=1.0.229", features = ["derive"] }
serde_json = "*"
serde_yaml = "=0.9.34+deprecated"
clap = { version = "=4.6.7", features = ["derive"] }
hostname = "=0.4.2"
anyhow = "=1.0.104"
log = "=0.4.34"
env_logger = "=0.11.11"
futures = "=0.3.34"
