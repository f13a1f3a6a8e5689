[package]
name = "storkitty"
version = "0.1.0"
edition = "2021"
publish = false

[dependencies]
sha2 = "0.10"
hex = "0.4"
urlencoding = "2"
anyhow = "1"
axum = { version = "0.8", features = ["multipart", "macros"] }
bcrypt = "*"
chrono = "0.4"
env_logger = "*"
jsonwebtoken = "9"
log = "0.4"
rusqlite = { version = "*", features = ["bundled"] }
serde = { version = "1", features = ["derive"] }
serde_json = "1"
tokio = { version = "1", features = ["full"] }
tokio-util = { version = "0.7", features = ["io"] }
tower-http = { version = "0.6", features = ["fs"] }
