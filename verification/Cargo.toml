[package]
name = "hashtags"
version = "0.1.0"
edition = "2021"
publish = false

[dependencies]
sha3 = "=0.8.2"
chrono = { version = "=0.4.45", features = ["serde"] }
rusqlite = { version = "=0.41.0", features = ["bundled", "chrono"] }
serde = { version = "=1.0.229", features = ["derive"] }
serde_json = "=1.0.154"
base64 = "=0.13.1"
clap = "=2.34.0"
dirs = "=7.0.0"

[dev-dependencies]
regex = "=1.13.1"
