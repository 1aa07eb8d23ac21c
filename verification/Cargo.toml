[package]
name = "vecdb"
version = "0.1.0"
edition = "2021"
publish = false

[dependencies]
roaring = "*"
hnsw_rs = "*"
anndists = "*"
serde = { version = "*", features = ["derive"] }
serde_json = "*"
tokio = { version = "*", features = ["full"] }
axum = "*"
axum-extra = "*"
config = "*"
thiserror = "*"
tracing = "*"
tracing-subscriber = "*"

[dev-dependencies]
uuid = { version = "*", features = ["v4"] }
