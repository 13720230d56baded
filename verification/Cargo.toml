[package]
name = "service_catalog"
version = "0.1.0"
edition = "2021"
publish = false

[dependencies]
anyhow = "*"
axum = "*"
chrono = "*"
clap = { version = "*", features = ["derive", "env"] }
futures = "*"
reqwest = { version = "*", default-features = false, features = ["rustls-tls"] }
serde = { version = "*", features = ["derive"] }
serde_json = "*"
tokio = { version = "*", features = ["full"] }
tower-http = { version = "*", features = ["cors"] }
