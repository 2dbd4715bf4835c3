[package]
name = "todo_api"
version = "0.1.0"
edition = "2021"
publish = false

[dependencies]
anyhow = "1"
axum = "0.5"
dotenv = "0.15"
http-body = "0.4"
hyper = { version = "0.14", features = ["full"] }
serde = { version = "1", features = ["derive"] }
sqlx = { version = "0.6", features = ["runtime-tokio-rustls", "postgres"] }
thiserror = "1"
tokio = { version = "1", features = ["full"] }
tower-http = { version = "0.2", features = ["cors"] }
tracing = "0.1"
tracing-subscriber = "0.3"
validator = { version = "0.16", features = ["derive"] }
