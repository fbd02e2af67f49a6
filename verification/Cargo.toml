[package]
name = "forgedrive"
version = "0.1.0"
edition = "2021"
publish = false

[dependencies]
axum = { version = "=0.7.9", features = ["multipart"] }
axum-extra = { version = "=0.9.6", features = ["cookie-private"] }
askama = "=0.12.1"
bcrypt = "=0.15.1"
serde = { version = "=1.0.229", features = ["derive"] }
sqlx = { version = "=0.7.4", features = ["sqlite", "runtime-tokio", "macros", "migrate"] }
tokio = { version = "=1.54.1", features = ["full"] }
tokio-util = { version = "=0.7.20", features = ["io"] }
