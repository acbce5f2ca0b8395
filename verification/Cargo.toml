[package]
name = "matching_engine"
version = "0.1.0"
edition = "2021"
publish = false

[dependencies]
rust_decimal = "1"
rand = "0.8"
serde = { version = "1", features = ["derive"] }
serde_json = "1"
tokio = { version = "1", features = ["rt-multi-thread", "macros", "time"] }
redis = { version = "0.25", features = ["tokio-comp"] }
futures = "0.3"
anyhow = "1"
log = "0.4"
env_logger = "0.11"
once_cell = "1"
actix-web = "4"
