[package]
name = "commonplace"
version = "0.1.0"
edition = "2021"
publish = false

[dependencies]
chrono = "*"
sled = "*"
tantivy = "*"
axum = "*"
tokio = { version = "*", features = ["full"] }
serde = { version = "*", features = ["derive"] }
serde_json = "*"
tower-http = { version = "*", features = ["fs", "trace"] }
tracing = "*"
tracing-subscriber = { version = "*", features = ["env-filter"] }
