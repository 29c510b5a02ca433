[package]
name = "vaultdb"
version = "0.1.0"
edition = "2021"
publish = false

[dependencies]
pulldown-cmark = { version = "0.12", default-features = false }
serde = { version = "1", features = ["derive"] }
serde_json = "1"
reqwest = { version = "0.12", default-features = false, features = ["json"] }
tokio = { version = "1", features = ["sync", "rt", "macros"] }
uuid = { version = "1", features = ["v4"] }
walkdir = "2"
dirs = "5"
notify = "6"
qdrant-client = { version = "1", default-features = false }
