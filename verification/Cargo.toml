[package]
name = "mobilemodels_db"
version = "0.1.0"
edition = "2021"
publish = false

[dependencies]
anndists = "0.1"
anyhow = "1"
axum = "0.8"
bincode = "1.3"
chrono = { version = "0.4", default-features = false, features = ["std"] }
hnsw_rs = "0.3"
redb = "2"
regex = "1"
reqwest = { version = "0.13", default-features = false, features = ["blocking", "rustls-no-provider"] }
rustls = { version = "0.23", default-features = false, features = ["ring", "std", "tls12"] }
serde = { version = "1", features = ["derive"] }
serde_json = "1"
tokio = { version = "1", features = ["rt-multi-thread", "net", "macros"] }
