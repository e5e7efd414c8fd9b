[package]
name = "audit_info"
version = "0.1.0"
edition = "2021"
publish = false

[dependencies]
auditable-extract = "*"
miniz_oxide = "*"
cargo_metadata = "*"
serde = { version = "1", features = ["derive"] }
serde_json = "1"
