[package]
name = "mieql"
version = "0.1.0"
edition = "2021"
publish = false

[dependencies]
flate2 = "1"
clap = "2"
env_logger = "0.10"
log = "0.4"
ieql = "*"
reqwest = { version = "0.11", features = ["blocking"] }
ron = "0.8"
serde = { version = "1", features = ["derive"] }
serde_json = "1"
hyper = { version = "0.14", features = ["full"] }
tokio = { version = "1", features = ["full"] }
postgres = "0.19"
rusoto_core = "0.48"
rusoto_s3 = "0.48"
