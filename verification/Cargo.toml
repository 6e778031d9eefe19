[package]
name = "blink"
version = "0.1.0"
edition = "2021"
publish = false

[dependencies]
sha2 = "0.10"
uuid = { version = "1", features = ["v4", "v5"] }
chrono = "0.4"
urlencoding = "2"
serde = { version = "1", features = ["derive"] }
serde_json = "1"
serde_yaml = "0.9"
rusqlite = { version = "0.31", features = ["bundled"] }
tokio = { version = "1", features = ["sync"] }
thiserror = "1"
log = "0.4"
dirs = "5"

[dev-dependencies]
regex = "1"
