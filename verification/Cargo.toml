[package]
name = "komodo_guard"
version = "0.1.0"
edition = "2021"
publish = false

[dependencies]
anyhow = "1"
axum = { version = "0.8", default-features = false }
indexmap = { version = "2", features = ["serde"] }
libc = "0.2"
regex = "1"
serde = { version = "1", features = ["derive"] }
serde_json = "1"
serde_yaml_ng = "*"
svi = "*"
