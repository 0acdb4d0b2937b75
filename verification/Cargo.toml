[package]
name = "kiro-rs"
version = "0.1.0"
edition = "2021"
publish = false

[dependencies]
anyhow = "1"
axum = { version = "0.8", default-features = false }
chrono = { version = "0.4", default-features = false, features = ["clock", "std", "alloc"] }
fastrand = "2"
parking_lot = "0.12"
reqwest = { version = "0.12", default-features = false }
serde = { version = "1", features = ["derive"] }
serde_json = "1"
sha2 = "0.10"
tokio = { version = "1", features = ["fs", "rt", "time"] }
tracing = "0.1"
uuid = { version = "1", features = ["v4"] }
