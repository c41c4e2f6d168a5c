[package]
name = "dnadb_engine"
version = "0.1.0"
edition = "2021"
publish = false

[dependencies]
bincode = "=1.3.3"
blake3 = { version = "=1.8.7", features = ["pure"] }
crc32fast = "=1.5.4"
uuid = { version = "=1.29.0", features = ["v4"] }
rayon = "=1.12.0"
serde = { version = "=1.0.229", features = ["derive"] }
serde_json = "=1.0.154"
memmap2 = "=0.9.12"
thiserror = "=1.0.69"
clap = { version = "=4.6.7", features = ["derive"] }
axum = "=0.7.9"
axum-server = { version = "=0.7.3", features = ["tls-rustls"] }
tokio = { version = "=1.54.1", features = ["rt-multi-thread", "macros", "net", "sync", "time"] }
tower-http = { version = "=0.5.2", features = ["cors", "fs"] }
tracing = "=0.1.44"
tracing-subscriber = { version = "=0.3.23", features = ["env-filter"] }
