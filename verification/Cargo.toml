[package]
name = "repo_manager"
version = "0.1.0"
edition = "2021"
publish = false

[dependencies]
anyhow = "1"
axum = { version = "=0.7.9", features = ["multipart"] }
serde = { version = "1", features = ["derive"] }
sha256 = "=1.6.0"
tokio = { version = "1", features = ["rt-multi-thread", "net", "macros", "sync"] }
toml = "=0.8.23"
tower = { version = "=0.4.13", features = ["util"] }
tower-http = { version = "=0.5.2", features = ["fs", "cors", "trace", "add-extension"] }
tracing = "0.1"
tracing-subscriber = "0.3"
