[package]
name = "tesseract"
version = "0.3.0"
edition = "2021"
publish = false

[dependencies]
async-trait = "=0.1.92"
axum = "=0.7.9"
bincode = "=1.3.3"
blake3 = "=1.8.7"
clap = { version = "=4.6.7", features = ["derive"] }
jsonwebtoken = "=9.3.1"
rand = "=0.8.8"
reqwest = { version = "=0.12.28", default-features = false, features = ["json"] }
rmcp = { version = "0.1", features = ["server", "transport-io"] }
serde = { version = "=1.0.229", features = ["derive"] }
serde_json = "=1.0.154"
sha2 = "=0.10.9"
thiserror = "=2.0.21"
tokio = { version = "=1.54.1", features = ["rt-multi-thread", "macros", "time", "sync", "net", "signal", "io-std"] }
tokio-util = "0.7"
tracing = "=0.1.44"
tracing-subscriber = { version = "=0.3.23", features = ["env-filter"] }
