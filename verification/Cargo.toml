[package]
name = "forest_router"
version = "0.1.0"
edition = "2021"
publish = false

[dependencies]
argon2 = "0.5"
async-stream = "0.3"
axum = "0.8"
chrono = "0.4"
futures-util = "0.3"
rand = "0.8"
reqwest = { version = "0.12", default-features = false, features = ["json", "stream", "rustls-tls"] }
serde = { version = "1", features = ["derive"] }
serde_json = { version = "1", features = ["raw_value", "preserve_order"] }
sha2 = "0.10"
tokio = { version = "1", features = ["full"] }
