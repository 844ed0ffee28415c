[package]
name = "tanker_price"
version = "0.1.0"
edition = "2021"
publish = false

[dependencies]
axum = "*"
clap = { version = "*", features = ["derive", "env"] }
env_logger = "*"
log = "*"
prometheus = "*"
reqwest = { version = "*", default-features = false, features = ["rustls-tls", "json"] }
serde = { version = "*", features = ["derive"] }
thiserror = "*"
tokio = { version = "*", features = ["full"] }
