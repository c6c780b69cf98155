[package]
name = "contextual"
version = "0.1.0"
edition = "2021"
publish = false

[dependencies]
kalosm-language = { version = "=0.4.2", default-features = false }
slab = "=0.4.12"
anyhow = "1"
parking_lot = "0.12"
serde = { version = "1", features = ["derive"] }
serde_json = "1"
thiserror = "1"
tokio = { version = "1", features = ["sync"] }
tracing = "0.1"
tracing-subscriber = "0.3"
