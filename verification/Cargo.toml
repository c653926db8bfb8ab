[package]
name = "metrics_sidecar"
version = "0.1.0"
edition = "2021"
publish = false

[dependencies]
actix-web = { version = "=4.18.1", default-features = false, features = ["macros"] }
env_logger = "=0.11.11"
futures = "=0.3.34"
log = "=0.4.34"
tokio = { version = "=1.54.1", features = ["rt-multi-thread"] }

[dev-dependencies]
prometheus = { version = "0.13", default-features = false }
regex = "1"
