[package]
name = "quran_asr_api"
version = "0.1.0"
edition = "2021"
publish = false

[dependencies]
anyhow = "1"
axum = { version = "0.7", features = ["multipart", "ws"] }
blake2 = "=0.10.6"
dashmap = "6"
futures-util = "0.3"
half = "2"
ipnet = "=2.12.2"
jsonwebtoken = "=9.3.1"
lru = "=0.12.5"
memmap2 = "0.9"
rayon = "=1.12.0"
reqwest = { version = "=0.12.28", default-features = false, features = ["json", "multipart", "stream", "rustls-tls"] }
rusqlite = { version = "0.31", features = ["bundled"] }
rustc-hash = "=2.1.3"
serde = { version = "1", features = ["derive"] }
serde_json = "=1.0.154"
tokio = { version = "1", features = ["full"] }
tokio-util = { version = "0.7", features = ["io"] }
tower-http = { version = "0.5", features = ["cors", "trace"] }
tracing = "0.1"
tracing-subscriber = { version = "0.3", features = ["env-filter"] }
unicode-general-category = "1.1"
uuid = { version = "1", features = ["v4"] }
